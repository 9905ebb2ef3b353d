//! Text operations on `str`, each specified over the character sequence it works on.
use vstd::prelude::*;

verus! {

/// What `s.replace("", to)` gives: `to` before every character of `s` and once at its end.
pub open spec fn interleaved(s: Seq<char>, to: Seq<char>) -> Seq<char>
    decreases s.len(),
{
    if s.len() == 0 {
        to
    } else {
        to + seq![s[0]] + interleaved(s.drop_first(), to)
    }
}

/// `s` with every occurrence of `from` replaced by `to`, the occurrences taken from the
/// left without overlap, as `str::replace` does.
pub open spec fn replaced(s: Seq<char>, from: Seq<char>, to: Seq<char>) -> Seq<char>
    decreases s.len(),
{
    if from.len() == 0 {
        interleaved(s, to)
    } else if s.len() == 0 {
        s
    } else if from.len() <= s.len() && s.take(from.len() as int) == from {
        to + replaced(s.skip(from.len() as int), from, to)
    } else {
        seq![s[0]] + replaced(s.drop_first(), from, to)
    }
}

/// `s` ends with `suffix`.
pub open spec fn ends_with_seq(s: Seq<char>, suffix: Seq<char>) -> bool {
    suffix.len() <= s.len() && s.skip(s.len() - suffix.len()) == suffix
}

/// Whether `pat` occurs in `s` at character position `i`.
fn occurs_at(s: &str, n: usize, pat: &str, m: usize, i: usize) -> (r: bool)
    requires
        n == s@.len(),
        m == pat@.len(),
        i <= n,
    ensures
        r == (i + m <= n && s@.subrange(i as int, i + m) == pat@),
{
    if m > n - i {
        return false;
    }
    let mut k: usize = 0;
    while k < m
        invariant
            n == s@.len(),
            m == pat@.len(),
            i + m <= n,
            k <= m,
            forall|j: int| 0 <= j < k ==> s@[i + j] == pat@[j],
        decreases m - k,
    {
        if s.get_char(i + k) != pat.get_char(k) {
            assert(s@.subrange(i as int, i + m)[k as int] != pat@[k as int]);
            return false;
        }
        k += 1;
    }
    assert(s@.subrange(i as int, i + m) =~= pat@);
    true
}

/// `a == b`.
pub fn equal(a: &str, b: &str) -> (r: bool)
    ensures
        r == (a@ == b@),
{
    let n = a.unicode_len();
    let m = b.unicode_len();
    if n != m {
        return false;
    }
    let r = occurs_at(a, n, b, m, 0);
    assert(a@.subrange(0, n as int) =~= a@);
    r
}

/// `s.replace(from, to)`.
pub fn replace(s: &str, from: &str, to: &str) -> (r: String)
    ensures
        r@ == replaced(s@, from@, to@),
{
    let n = s.unicode_len();
    let m = from.unicode_len();
    let mut out = String::new();
    let mut i: usize = 0;
    if m == 0 {
        assert(s@.skip(0) =~= s@);
        while i < n
            invariant
                n == s@.len(),
                i <= n,
                from@.len() == 0,
                out@ + interleaved(s@.skip(i as int), to@) == replaced(s@, from@, to@),
            decreases n - i,
        {
            let piece = s.substring_char(i, i + 1);
            assert(s@.skip(i as int).drop_first() =~= s@.skip(i + 1));
            assert(piece@ =~= seq![s@.skip(i as int)[0]]);
            assert(out@ + to@ + piece@ + interleaved(s@.skip(i + 1), to@) =~= out@ + (to@
                + seq![s@.skip(i as int)[0]] + interleaved(s@.skip(i as int).drop_first(), to@)));
            out.append(to);
            out.append(piece);
            i += 1;
        }
        assert(s@.skip(n as int) =~= Seq::<char>::empty());
        out.append(to);
        return out;
    }
    assert(s@.skip(0) =~= s@);
    while i < n
        invariant
            n == s@.len(),
            m == from@.len(),
            m > 0,
            i <= n,
            out@ + replaced(s@.skip(i as int), from@, to@) == replaced(s@, from@, to@),
        decreases n - i,
    {
        let rest = Ghost(s@.skip(i as int));
        if occurs_at(s, n, from, m, i) {
            assert(rest@.take(m as int) =~= s@.subrange(i as int, i + m));
            assert(rest@.skip(m as int) =~= s@.skip(i + m));
            assert(out@ + to@ + replaced(s@.skip(i + m), from@, to@) =~= out@ + (to@ + replaced(
                rest@.skip(m as int),
                from@,
                to@,
            )));
            out.append(to);
            i += m;
        } else {
            let piece = s.substring_char(i, i + 1);
            assert(m > rest@.len() || rest@.take(m as int) != from@) by {
                if m <= rest@.len() {
                    assert(rest@.take(m as int) =~= s@.subrange(i as int, i + m));
                }
            }
            assert(rest@.drop_first() =~= s@.skip(i + 1));
            assert(piece@ =~= seq![rest@[0]]);
            assert(out@ + piece@ + replaced(s@.skip(i + 1), from@, to@) =~= out@ + (seq![rest@[0]]
                + replaced(rest@.drop_first(), from@, to@)));
            out.append(piece);
            i += 1;
        }
    }
    assert(s@.skip(n as int) =~= Seq::<char>::empty());
    assert(out@ =~= replaced(s@, from@, to@));
    out
}

/// `s.ends_with(suffix)`.
pub fn ends_with(s: &str, suffix: &str) -> (r: bool)
    ensures
        r == ends_with_seq(s@, suffix@),
{
    let n = s.unicode_len();
    let m = suffix.unicode_len();
    if m > n {
        return false;
    }
    let r = occurs_at(s, n, suffix, m, n - m);
    assert(s@.subrange((n - m) as int, n as int) =~= s@.skip(n - m));
    r
}


/// The pieces of `s` between the occurrences of `sep`, as `str::split` with a `char`
/// pattern yields them: never empty, and an empty piece wherever `sep` stands at an end
/// or twice in a row.
pub open spec fn split_seq(s: Seq<char>, sep: char) -> Seq<Seq<char>>
    decreases s.len(),
{
    if s.len() == 0 {
        seq![Seq::<char>::empty()]
    } else {
        let rest = split_seq(s.drop_first(), sep);
        if s[0] == sep {
            seq![Seq::<char>::empty()] + rest
        } else {
            rest.update(0, seq![s[0]] + rest[0])
        }
    }
}

/// The pieces glued together with `sep` between each two, as `[String]::join` does.
pub open spec fn joined(parts: Seq<Seq<char>>, sep: Seq<char>) -> Seq<char>
    decreases parts.len(),
{
    if parts.len() == 0 {
        Seq::<char>::empty()
    } else if parts.len() == 1 {
        parts[0]
    } else {
        joined(parts.drop_last(), sep) + sep + parts.last()
    }
}

/// The character sequences of a sequence of strings.
pub open spec fn views(v: Seq<String>) -> Seq<Seq<char>> {
    v.map_values(|x: String| x@)
}

/// `piece` glued to the front of the first of `parts`.
pub open spec fn prepend_first(piece: Seq<char>, parts: Seq<Seq<char>>) -> Seq<Seq<char>> {
    parts.update(0, piece + parts[0])
}

/// Splitting gives at least one piece.
pub proof fn lemma_split_nonempty(s: Seq<char>, sep: char)
    ensures
        split_seq(s, sep).len() >= 1,
    decreases s.len(),
{
    if s.len() > 0 {
        lemma_split_nonempty(s.drop_first(), sep);
    }
}

proof fn lemma_joined_front(parts: Seq<Seq<char>>, sep: Seq<char>)
    requires
        parts.len() >= 2,
    ensures
        joined(parts, sep) == parts[0] + sep + joined(parts.drop_first(), sep),
    decreases parts.len(),
{
    if parts.len() == 2 {
        assert(parts.drop_last() =~= seq![parts[0]]);
        assert(parts.drop_first() =~= seq![parts[1]]);
        assert(joined(parts.drop_last(), sep) == parts[0]);
        assert(joined(parts.drop_first(), sep) == parts[1]);
    } else {
        lemma_joined_front(parts.drop_last(), sep);
        assert(parts.drop_last().drop_first() =~= parts.drop_first().drop_last());
        assert(parts.drop_first().last() == parts.last());
        assert(joined(parts, sep) =~= parts[0] + sep + joined(parts.drop_first(), sep));
    }
}

proof fn lemma_joined_prepend(piece: Seq<char>, parts: Seq<Seq<char>>, sep: Seq<char>)
    requires
        parts.len() >= 1,
    ensures
        joined(prepend_first(piece, parts), sep) == piece + joined(parts, sep),
{
    let q = prepend_first(piece, parts);
    if parts.len() == 1 {
        assert(joined(q, sep) == q[0]);
    } else {
        lemma_joined_front(parts, sep);
        lemma_joined_front(q, sep);
        assert(q.drop_first() =~= parts.drop_first());
        assert(joined(q, sep) =~= piece + joined(parts, sep));
    }
}

/// Joining two non-empty lists of pieces puts one separator between the two joins.
pub proof fn lemma_joined_concat(a: Seq<Seq<char>>, b: Seq<Seq<char>>, sep: Seq<char>)
    requires
        a.len() >= 1,
        b.len() >= 1,
    ensures
        joined(a + b, sep) == joined(a, sep) + sep + joined(b, sep),
    decreases b.len(),
{
    if b.len() == 1 {
        assert((a + b).drop_last() =~= a);
    } else {
        lemma_joined_concat(a, b.drop_last(), sep);
        assert((a + b).drop_last() =~= a + b.drop_last());
        assert(joined(a + b, sep) =~= joined(a, sep) + sep + joined(b, sep));
    }
}

/// Splitting at a character and joining the pieces with that character gives the text
/// back.
pub proof fn lemma_join_split(s: Seq<char>, sep: char)
    ensures
        joined(split_seq(s, sep), seq![sep]) == s,
    decreases s.len(),
{
    if s.len() == 0 {
        assert(joined(split_seq(s, sep), seq![sep]) =~= s);
    } else {
        let rest = split_seq(s.drop_first(), sep);
        lemma_split_nonempty(s.drop_first(), sep);
        lemma_join_split(s.drop_first(), sep);
        if s[0] == sep {
            let parts = seq![Seq::<char>::empty()] + rest;
            lemma_joined_front(parts, seq![sep]);
            assert(parts.drop_first() =~= rest);
            assert(joined(parts, seq![sep]) =~= s);
        } else {
            lemma_joined_prepend(seq![s[0]], rest, seq![sep]);
            assert(joined(split_seq(s, sep), seq![sep]) =~= s);
        }
    }
}

/// `s.split(sep)`, collected.
pub fn split(s: &str, sep: char) -> (r: Vec<String>)
    ensures
        views(r@) == split_seq(s@, sep),
{
    let n = s.unicode_len();
    let mut parts: Vec<String> = Vec::new();
    let mut cur = String::new();
    let mut i: usize = 0;
    assert(s@.skip(0) =~= s@);
    proof {
        lemma_split_nonempty(s@, sep);
        assert(prepend_first(cur@, split_seq(s@, sep)) =~= split_seq(s@, sep));
        assert(views(parts@) + prepend_first(cur@, split_seq(s@, sep)) =~= split_seq(s@, sep));
    }
    while i < n
        invariant
            n == s@.len(),
            i <= n,
            views(parts@) + prepend_first(cur@, split_seq(s@.skip(i as int), sep)) == split_seq(
                s@,
                sep,
            ),
        decreases n - i,
    {
        let c = s.get_char(i);
        let ghost rest = s@.skip(i as int);
        let ghost tail = split_seq(s@.skip(i + 1), sep);
        proof {
            assert(rest.drop_first() =~= s@.skip(i + 1));
            lemma_split_nonempty(s@.skip(i + 1), sep);
        }
        if c == sep {
            let ghost old_parts = parts@;
            let ghost old_cur = cur@;
            parts.push(cur);
            cur = String::new();
            proof {
                assert(split_seq(rest, sep) == seq![Seq::<char>::empty()] + tail);
                assert(views(parts@) =~= views(old_parts).push(old_cur));
                assert(prepend_first(cur@, tail) =~= tail);
                assert(views(parts@) + prepend_first(cur@, tail) =~= views(old_parts)
                    + prepend_first(old_cur, split_seq(rest, sep)));
            }
        } else {
            let ghost old_cur = cur@;
            let piece = s.substring_char(i, i + 1);
            cur.append(piece);
            proof {
                assert(piece@ =~= seq![c]);
                assert(split_seq(rest, sep) == prepend_first(seq![c], tail));
                assert(cur@ + tail[0] =~= old_cur + (seq![c] + tail[0]));
                assert(prepend_first(cur@, tail) =~= prepend_first(old_cur, prepend_first(seq![c], tail)));
            }
        }
        i += 1;
    }
    let ghost before = parts@;
    parts.push(cur);
    proof {
        assert(s@.skip(n as int) =~= Seq::<char>::empty());
        assert(views(parts@) =~= views(before) + prepend_first(cur@, split_seq(s@.skip(n as int), sep)));
    }
    parts
}

/// `parts.join(sep)`.
pub fn join(parts: &Vec<String>, sep: &str) -> (r: String)
    ensures
        r@ == joined(views(parts@), sep@),
{
    let mut out = String::new();
    let n = parts.len();
    let mut i: usize = 0;
    while i < n
        invariant
            n == parts@.len(),
            i <= n,
            out@ == joined(views(parts@).take(i as int), sep@),
        decreases n - i,
    {
        let ghost before = views(parts@).take(i as int);
        if i > 0 {
            out.append(sep);
        }
        out.append(parts[i].as_str());
        proof {
            let now = views(parts@).take(i + 1);
            assert(now.drop_last() =~= before);
            if i == 0 {
                assert(joined(now, sep@) == now[0]);
            }
            assert(out@ =~= joined(now, sep@));
        }
        i += 1;
    }
    assert(views(parts@).take(n as int) =~= views(parts@));
    out
}

/// No character of `s` is `c`.
pub open spec fn lacks(s: Seq<char>, c: char) -> bool {
    forall|i: int| 0 <= i < s.len() ==> s[i] != c
}

/// `f` occurs somewhere in `s`.
pub open spec fn occurs_in(s: Seq<char>, f: Seq<char>) -> bool {
    exists|i: int| 0 <= i && i + f.len() <= s.len() && #[trigger] s.subrange(i, i + f.len()) == f
}

/// Replacing in two pieces separately gives what replacing in their concatenation gives,
/// where no occurrence that starts in the first piece reaches into the second.
pub proof fn lemma_replaced_concat(x: Seq<char>, y: Seq<char>, f: Seq<char>, t: Seq<char>)
    requires
        f.len() > 0,
        forall|i: int|
            0 <= i < x.len() && x.len() < i + f.len() <= x.len() + y.len() ==> #[trigger] (x
                + y).subrange(i, i + f.len()) != f,
    ensures
        replaced(x + y, f, t) == replaced(x, f, t) + replaced(y, f, t),
    decreases x.len(),
{
    let s = x + y;
    if x.len() == 0 {
        assert(s =~= y);
        assert(replaced(x, f, t) =~= Seq::<char>::empty());
        assert(replaced(x, f, t) + replaced(y, f, t) =~= replaced(y, f, t));
    } else {
        let k = f.len() as int;
        if k <= s.len() && s.take(k) == f {
            if k > x.len() {
                assert((x + y).subrange(0, 0int + f.len()) =~= s.take(k));
                assert(false);
            }
            assert(x.take(k) =~= s.take(k));
            let x2 = x.skip(k);
            assert(s.skip(k) =~= x2 + y);
            assert forall|i: int|
                0 <= i < x2.len() && x2.len() < i + f.len() <= x2.len() + y.len() implies #[trigger] (
            x2 + y).subrange(i, i + f.len()) != f by {
                assert((x2 + y).subrange(i, i + f.len()) =~= s.subrange(i + k, i + k + f.len()));
            }
            lemma_replaced_concat(x2, y, f, t);
            assert(replaced(s, f, t) =~= replaced(x, f, t) + replaced(y, f, t));
        } else {
            if k <= x.len() && x.take(k) == f {
                assert(s.take(k) =~= x.take(k));
            }
            let x2 = x.drop_first();
            assert(s.drop_first() =~= x2 + y);
            assert forall|i: int|
                0 <= i < x2.len() && x2.len() < i + f.len() <= x2.len() + y.len() implies #[trigger] (
            x2 + y).subrange(i, i + f.len()) != f by {
                assert((x2 + y).subrange(i, i + f.len()) =~= s.subrange(i + 1, i + 1 + f.len()));
            }
            lemma_replaced_concat(x2, y, f, t);
            assert(replaced(s, f, t) =~= replaced(x, f, t) + replaced(y, f, t));
        }
    }
}

/// Replacing a pattern that does not occur changes nothing.
pub proof fn lemma_replaced_absent(s: Seq<char>, f: Seq<char>, t: Seq<char>)
    requires
        f.len() > 0,
        !occurs_in(s, f),
    ensures
        replaced(s, f, t) == s,
    decreases s.len(),
{
    if s.len() > 0 {
        let k = f.len() as int;
        if k <= s.len() {
            assert(s.subrange(0, 0int + f.len()) =~= s.take(k));
        }
        let s2 = s.drop_first();
        assert(!occurs_in(s2, f)) by {
            if occurs_in(s2, f) {
                let i = choose|i: int| 0 <= i && i + f.len() <= s2.len() && #[trigger] s2.subrange(i, i + f.len()) == f;
                assert(s2.subrange(i, i + f.len()) =~= s.subrange(i + 1, i + 1 + f.len()));
            }
        }
        lemma_replaced_absent(s2, f, t);
        assert(seq![s[0]] + s2 =~= s);
    }
}

/// Replacing keeps out a character that neither the text nor the replacement holds.
pub proof fn lemma_replaced_lacks(s: Seq<char>, f: Seq<char>, t: Seq<char>, c: char)
    requires
        f.len() > 0,
        lacks(s, c),
        lacks(t, c),
    ensures
        lacks(replaced(s, f, t), c),
    decreases s.len(),
{
    if s.len() > 0 {
        let k = f.len() as int;
        if k <= s.len() && s.take(k) == f {
            lemma_replaced_lacks(s.skip(k), f, t, c);
        } else {
            lemma_replaced_lacks(s.drop_first(), f, t, c);
        }
    }
}

/// Where the first `k` characters of the replaced text hold no first character of the
/// replacement, no occurrence was replaced there: they are the first `k` characters of
/// the text, and replacing goes on from there.
pub proof fn lemma_replaced_plain_prefix(s: Seq<char>, f: Seq<char>, t: Seq<char>, k: int)
    requires
        f.len() > 0,
        t.len() > 0,
        0 <= k <= replaced(s, f, t).len(),
        forall|j: int| 0 <= j < k ==> replaced(s, f, t)[j] != t[0],
    ensures
        k <= s.len(),
        replaced(s, f, t) == s.take(k) + replaced(s.skip(k), f, t),
    decreases k,
{
    if k == 0 {
        assert(s.skip(0) =~= s);
        assert(s.take(0) + replaced(s, f, t) =~= replaced(s, f, t));
    } else {
        let r = replaced(s, f, t);
        let n = f.len() as int;
        if s.len() == 0 {
            assert(r.len() == 0);
        } else if n <= s.len() && s.take(n) == f {
            assert(r[0] == t[0]);
        } else {
            let s2 = s.drop_first();
            assert(r == seq![s[0]] + replaced(s2, f, t));
            assert forall|j: int| 0 <= j < k - 1 implies replaced(s2, f, t)[j] != t[0] by {
                assert(replaced(s2, f, t)[j] == r[j + 1]);
            }
            lemma_replaced_plain_prefix(s2, f, t, k - 1);
            assert(s2.skip(k - 1) =~= s.skip(k));
            assert(seq![s[0]] + s2.take(k - 1) =~= s.take(k));
            assert(r =~= s.take(k) + replaced(s.skip(k), f, t));
        }
    }
}

/// A text ends with a suffix exactly when it is some text followed by that suffix.
pub proof fn lemma_ends_with_seq(s: Seq<char>, prefix: Seq<char>, suffix: Seq<char>)
    ensures
        ends_with_seq(prefix + suffix, suffix),
        ends_with_seq(s, suffix) ==> s == s.take(s.len() - suffix.len()) + suffix,
        suffix.len() > s.len() ==> !ends_with_seq(s, suffix),
{
    assert((prefix + suffix).skip(prefix.len() as int) =~= suffix);
    if ends_with_seq(s, suffix) {
        assert(s =~= s.take(s.len() - suffix.len()) + s.skip(s.len() - suffix.len()));
    }
}

} // verus!
