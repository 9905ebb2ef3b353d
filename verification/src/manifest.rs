//! The `[package.metadata.gha]` (or `[workspace.metadata.gha]`) section of `Cargo.toml`:
//! the configured targets and assets, read and extended through `toml_edit`.
use toml_edit::ArrayOfTables;
use toml_edit::Document;
use toml_edit::InlineTable;
use toml_edit::Item;
use toml_edit::Table;
use toml_edit::TomlError;
use toml_edit::Value;
use vstd::prelude::*;

verus! {

/// The archive file name configured for each target triple, each target at most once.
#[derive(Debug, PartialEq)]
pub struct TargetArchives {
    entries: Vec<(String, String)>,
}

/// The map that a list of (key, value) pairs stands for; a later pair wins over an
/// earlier one with the same key.
pub open spec fn pairs_map(pairs: Seq<(Seq<char>, Seq<char>)>) -> Map<Seq<char>, Seq<char>>
    decreases pairs.len(),
{
    if pairs.len() == 0 {
        Map::empty()
    } else {
        pairs_map(pairs.drop_last()).insert(pairs.last().0, pairs.last().1)
    }
}

/// No key occurs twice among the pairs.
pub open spec fn distinct_keys(pairs: Seq<(Seq<char>, Seq<char>)>) -> bool {
    forall|i: int, j: int| 0 <= i < j < pairs.len() ==> pairs[i].0 != pairs[j].0
}

/// The character sequences of a list of string pairs.
pub open spec fn pair_views(v: Seq<(String, String)>) -> Seq<(Seq<char>, Seq<char>)> {
    v.map_values(|e: (String, String)| (e.0@, e.1@))
}

/// A key is in the map of the pairs exactly where some pair has it.
pub proof fn lemma_pairs_map_contains(pairs: Seq<(Seq<char>, Seq<char>)>, k: Seq<char>)
    ensures
        pairs_map(pairs).contains_key(k) <==> exists|i: int| 0 <= i < pairs.len() && pairs[i].0 == k,
    decreases pairs.len(),
{
    if pairs.len() > 0 {
        lemma_pairs_map_contains(pairs.drop_last(), k);
        if pairs_map(pairs).contains_key(k) && pairs.last().0 != k {
            let i = choose|i: int| 0 <= i < pairs.drop_last().len() && pairs.drop_last()[i].0 == k;
            assert(pairs[i].0 == k);
        }
        if exists|i: int| 0 <= i < pairs.len() && pairs[i].0 == k {
            let i = choose|i: int| 0 <= i < pairs.len() && pairs[i].0 == k;
            if i < pairs.len() - 1 {
                assert(pairs.drop_last()[i].0 == k);
            }
        }
    }
}

/// Where no key occurs twice, the map of the pairs gives each pair's value for its key.
pub proof fn lemma_pairs_map_at(pairs: Seq<(Seq<char>, Seq<char>)>, i: int)
    requires
        distinct_keys(pairs),
        0 <= i < pairs.len(),
    ensures
        pairs_map(pairs).contains_key(pairs[i].0),
        pairs_map(pairs)[pairs[i].0] == pairs[i].1,
    decreases pairs.len(),
{
    if i < pairs.len() - 1 {
        lemma_pairs_map_at(pairs.drop_last(), i);
    }
}

proof fn lemma_pairs_map_update(pairs: Seq<(Seq<char>, Seq<char>)>, i: int, v: Seq<char>)
    requires
        distinct_keys(pairs),
        0 <= i < pairs.len(),
    ensures
        pairs_map(pairs.update(i, (pairs[i].0, v))) == pairs_map(pairs).insert(pairs[i].0, v),
    decreases pairs.len(),
{
    let q = pairs.update(i, (pairs[i].0, v));
    if i == pairs.len() - 1 {
        assert(q.drop_last() =~= pairs.drop_last());
        assert(pairs_map(q) =~= pairs_map(pairs).insert(pairs[i].0, v));
    } else {
        lemma_pairs_map_update(pairs.drop_last(), i, v);
        assert(q.drop_last() =~= pairs.drop_last().update(i, (pairs[i].0, v)));
        assert(pairs_map(q) =~= pairs_map(pairs).insert(pairs[i].0, v));
    }
}

impl TargetArchives {
    #[verifier::type_invariant]
    closed spec fn keys_once(self) -> bool {
        distinct_keys(pair_views(self.entries@))
    }

    /// The (target, archive) pairs in the order they were first inserted.
    pub closed spec fn pairs(self) -> Seq<(Seq<char>, Seq<char>)> {
        pair_views(self.entries@)
    }

    /// No target is configured.
    pub fn new() -> (r: Self)
        ensures
            r@ == Map::<Seq<char>, Seq<char>>::empty(),
            r.pairs().len() == 0,
    {
        let r = TargetArchives { entries: Vec::new() };
        assert(pairs_map(r.pairs()) =~= Map::<Seq<char>, Seq<char>>::empty());
        r
    }

    /// Sets the archive of `target`, replacing an earlier one, as `HashMap::insert` does.
    pub fn insert(&mut self, target: String, archive: String)
        ensures
            final(self)@ == old(self)@.insert(target@, archive@),
    {
        proof {
            use_type_invariant(&*self);
        }
        let ghost before = self.pairs();
        let n = self.entries.len();
        let mut i: usize = 0;
        while i < n
            invariant
                n == self.entries@.len(),
                before == pair_views(self.entries@),
                old(self)@ == pairs_map(before),
                i <= n,
                distinct_keys(before),
                forall|j: int| 0 <= j < i ==> before[j].0 != target@,
            decreases n - i,
        {
            if self.entries[i].0 == target {
                proof {
                    assert(before[i as int].0 == target@);
                    lemma_pairs_map_update(before, i as int, archive@);
                }
                let mut entries: Vec<(String, String)> = Vec::new();
                std::mem::swap(&mut entries, &mut self.entries);
                entries.set(i, (target, archive));
                proof {
                    assert(pair_views(entries@) =~= before.update(i as int, (before[i as int].0, archive@)));
                    assert(distinct_keys(pair_views(entries@)));
                }
                self.entries = entries;
                return;
            }
            i += 1;
        }
        let mut entries: Vec<(String, String)> = Vec::new();
        std::mem::swap(&mut entries, &mut self.entries);
        let ghost t = target@;
        let ghost a = archive@;
        entries.push((target, archive));
        proof {
            assert(pair_views(entries@) =~= before.push((t, a)));
            assert(pair_views(entries@).drop_last() =~= before);
            assert(distinct_keys(pair_views(entries@)));
        }
        self.entries = entries;
    }

    /// The archive configured for `target`, if any.
    pub fn get(&self, target: &str) -> (r: Option<&String>)
        ensures
            r is Some <==> self@.contains_key(target@),
            r matches Some(a) ==> a@ == self@[target@],
    {
        proof {
            use_type_invariant(self);
            lemma_pairs_map_contains(self.pairs(), target@);
        }
        let n = self.entries.len();
        let mut i: usize = 0;
        while i < n
            invariant
                n == self.entries@.len(),
                i <= n,
                distinct_keys(self.pairs()),
                forall|j: int| 0 <= j < i ==> self.pairs()[j].0 != target@,
            decreases n - i,
        {
            if crate::text::equal(self.entries[i].0.as_str(), target) {
                proof {
                    lemma_pairs_map_at(self.pairs(), i as int);
                }
                return Some(&self.entries[i].1);
            }
            i += 1;
        }
        None
    }

    /// The (target, archive) pairs, in the order they were first inserted.
    pub fn entries(&self) -> (r: &Vec<(String, String)>)
        ensures
            pair_views(r@) == self.pairs(),
            pairs_map(pair_views(r@)) == self@,
            distinct_keys(pair_views(r@)),
    {
        proof {
            use_type_invariant(self);
        }
        &self.entries
    }

    /// The number of configured targets.
    pub fn len(&self) -> (r: usize)
        ensures
            r == self.pairs().len(),
    {
        self.entries.len()
    }
}

impl Clone for TargetArchives {
    /// A copy with the same pairs in the same order.
    fn clone(&self) -> (r: Self)
        ensures
            r.pairs() == self.pairs(),
            r@ == self@,
    {
        proof {
            use_type_invariant(self);
        }
        let mut entries: Vec<(String, String)> = Vec::new();
        let n = self.entries.len();
        let mut i: usize = 0;
        while i < n
            invariant
                n == self.entries@.len(),
                i <= n,
                pair_views(entries@) == self.pairs().take(i as int),
                entries@.len() == i,
            decreases n - i,
        {
            let e = (self.entries[i].0.clone(), self.entries[i].1.clone());
            entries.push(e);
            assert(pair_views(entries@) =~= self.pairs().take(i + 1));
            i += 1;
        }
        assert(self.pairs().take(n as int) =~= self.pairs());
        TargetArchives { entries }
    }
}

impl View for TargetArchives {
    type V = Map<Seq<char>, Seq<char>>;

    closed spec fn view(&self) -> Map<Seq<char>, Seq<char>> {
        pairs_map(self.pairs())
    }
}

/// An asset of a GitHub release: where it comes from, which of its files are
/// binaries, and which archive to fetch for each target.
#[derive(Clone, Debug, PartialEq)]
pub struct Asset {
    pub owner_repo: String,
    pub tag: String,
    pub binaries: Vec<String>,
    pub target_archives: TargetArchives,
}

/// The `[package.metadata.gha]` table as configured by hand.
#[derive(Clone, Debug, PartialEq)]
pub struct MetadataValue {
    pub targets: Vec<String>,
}

/// The configured assets and targets.
#[derive(Clone, Debug, PartialEq)]
pub struct Metadata {
    pub assets: Vec<Asset>,
    pub targets: Vec<String>,
}

#[verifier::external_type_specification]
#[verifier::external_body]
pub struct ExDocument(Document);

#[verifier::external_type_specification]
#[verifier::external_body]
pub struct ExItem(Item);

#[verifier::external_type_specification]
#[verifier::external_body]
pub struct ExTomlError(TomlError);

#[verifier::external_type_specification]
#[verifier::external_body]
pub struct ExTable(Table);

#[verifier::external_type_specification]
#[verifier::external_body]
pub struct ExInlineTable(InlineTable);

#[verifier::external_type_specification]
#[verifier::external_body]
pub struct ExValue(Value);

#[verifier::external_type_specification]
#[verifier::external_body]
pub struct ExArrayOfTables(ArrayOfTables);

/// What kind of item a key path of a TOML document leads to.
pub enum TomlKind {
    /// A table, `[header]` or implicit.
    Table,
    /// An inline table value, `{ .. }`.
    InlineTable,
    /// An array of tables, `[[header]]`, with the contents of each of its tables, in
    /// order, as `toml_table_contents` gives them.
    ArrayOfTables(Seq<Map<Seq<Seq<char>>, TomlContent>>),
    /// Any other value.
    OtherValue,
}

/// The item that a key path leads to: its kind, and the text that `toml_edit` renders
/// for it.
pub struct TomlNode {
    pub kind: TomlKind,
    pub text: Seq<char>,
}

/// A kind of item that `Item::get` can look a string key up in.
pub open spec fn table_like(kind: TomlKind) -> bool {
    kind is Table || kind is InlineTable
}

/// What a TOML item holds: each of its key paths (the sequences of keys along which
/// `Item::get` succeeds one call after another, starting at the item) with the item found
/// there, its text being what `Item::to_string` renders. The empty path stands for the
/// item itself and is present unless the item is `Item::None`.
pub uninterp spec fn toml_item_nodes(item: Item) -> Map<Seq<Seq<char>>, TomlNode>;

/// The texts of the items at some key paths.
pub open spec fn node_texts(nodes: Map<Seq<Seq<char>>, TomlNode>) -> Map<Seq<Seq<char>>, Seq<char>> {
    nodes.map_values(|n: TomlNode| n.text)
}

/// The key paths of a TOML item.
pub open spec fn toml_item_paths(item: Item) -> Set<Seq<Seq<char>>> {
    toml_item_nodes(item).dom()
}

/// The text rendered for the item at each key path of a TOML item.
pub open spec fn toml_item_texts(item: Item) -> Map<Seq<Seq<char>>, Seq<char>> {
    node_texts(toml_item_nodes(item))
}

/// What a TOML document holds: the key paths of its root item, each with the item found
/// there, except that the text at the empty path is what `Document::to_string` renders
/// for the whole document.
pub uninterp spec fn toml_document_nodes(doc: Document) -> Map<Seq<Seq<char>>, TomlNode>;

/// The key paths of the root item of a TOML document.
pub open spec fn toml_document_paths(doc: Document) -> Set<Seq<Seq<char>>> {
    toml_document_nodes(doc).dom()
}

/// The text rendered at each key path of a TOML document.
pub open spec fn toml_document_texts(doc: Document) -> Map<Seq<Seq<char>>, Seq<char>> {
    node_texts(toml_document_nodes(doc))
}

/// What the document that `toml_edit` parses out of `text` holds, as
/// `toml_document_nodes` gives it, or, where `text` is not a TOML document, the message
/// of the parse error.
pub uninterp spec fn toml_parsed(text: Seq<char>) -> Result<Map<Seq<Seq<char>>, TomlNode>, Seq<char>>;

/// What the document parsed out of `text` holds, or `None` where `text` is not a TOML
/// document.
pub open spec fn toml_parsed_nodes(text: Seq<char>) -> Option<Map<Seq<Seq<char>>, TomlNode>> {
    match toml_parsed(text) {
        Ok(nodes) => Some(nodes),
        Err(_) => None,
    }
}

/// The texts of the document parsed out of `text`.
pub open spec fn toml_parsed_texts(text: Seq<char>) -> Option<Map<Seq<Seq<char>>, Seq<char>>> {
    match toml_parsed_nodes(text) {
        Some(nodes) => Some(node_texts(nodes)),
        None => None,
    }
}

/// The key paths of the document parsed out of `text`, or `None` where `text` is not a
/// TOML document.
pub open spec fn toml_parsed_paths(text: Seq<char>) -> Option<Set<Seq<Seq<char>>>> {
    match toml_parsed_nodes(text) {
        Some(nodes) => Some(nodes.dom()),
        None => None,
    }
}

/// The root of a document is there, and is a table.
pub open spec fn root_is_table(nodes: Map<Seq<Seq<char>>, TomlNode>) -> bool {
    nodes.contains_key(Seq::empty()) && nodes[Seq::empty()].kind is Table
}

/// Every key path that continues past a prefix continues it from a table or an inline
/// table, as only those can be looked into with a string key.
pub open spec fn well_shaped(nodes: Map<Seq<Seq<char>>, TomlNode>) -> bool {
    forall|p: Seq<Seq<char>>, k: Seq<char>| #[trigger]
        nodes.contains_key(p.push(k)) ==> nodes.contains_key(p) && table_like(nodes[p].kind)
}

/// `str::parse::<toml_edit::Document>`. Claimed: it succeeds exactly where `text` is a
/// TOML document, and the document it gives holds what the name assigns to `text`.
#[verifier::external_body]
fn parse_document(text: &str) -> (r: Result<Document, TomlError>)
    ensures
        r is Ok <==> toml_parsed(text@) is Ok,
        r matches Ok(doc) ==> (toml_parsed(text@) matches Ok(nodes) && nodes == toml_document_nodes(
            doc,
        )),
        r matches Err(e) ==> (toml_parsed(text@) matches Err(message) && message == toml_error_text(
            e,
        )),
        r matches Ok(doc) ==> root_is_table(toml_document_nodes(doc)),
        r matches Ok(doc) ==> well_shaped(toml_document_nodes(doc)),
{
    text.parse::<Document>()
}

/// `Document::as_item`. Claimed: the root item has the document's key paths, with the
/// same texts below the root.
#[verifier::external_body]
fn document_item(doc: &Document) -> (r: &Item)
    ensures
        toml_item_paths(*r) == toml_document_paths(*doc),
        forall|p: Seq<Seq<char>>|
            p.len() > 0 && #[trigger] toml_document_nodes(*doc).contains_key(p) ==> toml_item_nodes(
                *r,
            )[p] == toml_document_nodes(*doc)[p],
{
    doc.as_item()
}

/// `Item::get` with a string key. Claimed: it succeeds exactly when the one-key path is
/// one of the item's key paths, the item it returns has as key paths exactly the
/// continuations of that key, and where it fails no key path starts with the key.
#[verifier::external_body]
fn item_get<'a>(item: &'a Item, key: &str) -> (r: Option<&'a Item>)
    ensures
        r is Some <==> toml_item_paths(*item).contains(seq![key@]),
        r matches Some(child) ==> forall|p: Seq<Seq<char>>|
            #[trigger] toml_item_paths(*child).contains(p) <==> toml_item_paths(*item).contains(
                seq![key@] + p,
            ),
        r matches Some(child) ==> forall|p: Seq<Seq<char>>|
            #[trigger] toml_item_nodes(*child).contains_key(p) ==> toml_item_nodes(*child)[p]
                == toml_item_nodes(*item)[seq![key@] + p],
        r is None ==> forall|p: Seq<Seq<char>>|
            !#[trigger] toml_item_paths(*item).contains(seq![key@] + p),
{
    item.get(key)
}

/// Whether every key of `keys` can be looked up in turn, starting at an item with key
/// paths `paths`.
pub open spec fn has_key_path(paths: Set<Seq<Seq<char>>>, keys: Seq<Seq<char>>) -> bool {
    keys.len() == 0 || paths.contains(keys)
}

/// The character sequences of a list of keys.
pub open spec fn key_views(keys: Seq<&str>) -> Seq<Seq<char>> {
    keys.map_values(|k: &str| k@)
}

/// The item reached by looking `keys` up one after another, starting at `doc`, as the
/// chain `doc[keys[0]][keys[1]]...` reaches it where it does not panic.
pub fn item_at<'a>(doc: &'a Item, keys: &Vec<&str>) -> (r: Option<&'a Item>)
    ensures
        r is Some <==> has_key_path(toml_item_paths(*doc), key_views(keys@)),
        r matches Some(found) ==> forall|p: Seq<Seq<char>>| #[trigger]
            toml_item_paths(*found).contains(p) <==> toml_item_paths(*doc).contains(
                key_views(keys@) + p,
            ),
        r matches Some(found) ==> forall|p: Seq<Seq<char>>| #[trigger]
            toml_item_texts(*found).contains_key(p) ==> toml_item_texts(*found)[p]
                == toml_item_texts(*doc)[key_views(keys@) + p],
{
    let ghost ks = key_views(keys@);
    let ghost all = toml_item_paths(*doc);
    let ghost texts = toml_item_texts(*doc);
    let mut item = doc;
    let n = keys.len();
    let mut k: usize = 0;
    proof {
        assert forall|p: Seq<Seq<char>>| #[trigger] toml_item_paths(*item).contains(p) <==> all.contains(
            ks.take(0) + p,
        ) by {
            assert(ks.take(0) + p =~= p);
        }
        assert forall|p: Seq<Seq<char>>| #[trigger] toml_item_texts(*item).contains_key(p)
            implies toml_item_texts(*item)[p] == texts[ks.take(0) + p] by {
            assert(ks.take(0) + p =~= p);
        }
    }
    while k < n
        invariant
            n == keys@.len(),
            ks == key_views(keys@),
            all == toml_item_paths(*doc),
            k <= n,
            forall|p: Seq<Seq<char>>| #[trigger]
                toml_item_paths(*item).contains(p) <==> all.contains(ks.take(k as int) + p),
            k >= 1 ==> toml_item_paths(*item).contains(Seq::<Seq<char>>::empty()),
            texts == toml_item_texts(*doc),
            forall|p: Seq<Seq<char>>| #[trigger]
                toml_item_texts(*item).contains_key(p) ==> toml_item_texts(*item)[p] == texts[ks.take(
                    k as int,
                ) + p],
        decreases n - k,
    {
        let key = keys[k];
        match item_get(item, key) {
            None => {
                proof {
                    let rest = ks.skip(k + 1);
                    assert(!toml_item_paths(*item).contains(seq![key@] + rest));
                    assert(ks.take(k as int) + (seq![key@] + rest) =~= ks);
                }
                return None;
            },
            Some(child) => {
                proof {
                    assert(toml_item_paths(*child).contains(Seq::<Seq<char>>::empty())
                        <==> toml_item_paths(*item).contains(
                        seq![key@] + Seq::<Seq<char>>::empty(),
                    ));
                    assert(seq![key@] + Seq::<Seq<char>>::empty() =~= seq![key@]);
                    assert forall|p: Seq<Seq<char>>| #[trigger]
                        toml_item_paths(*child).contains(p) <==> all.contains(
                            ks.take(k + 1) + p,
                        ) by {
                        assert(toml_item_paths(*item).contains(seq![key@] + p) <==> all.contains(
                            ks.take(k as int) + (seq![key@] + p),
                        ));
                        assert(ks.take(k as int) + (seq![key@] + p) =~= ks.take(k + 1) + p);
                    }
                    assert forall|p: Seq<Seq<char>>| #[trigger]
                        toml_item_texts(*child).contains_key(p) implies toml_item_texts(*child)[p]
                        == texts[ks.take(k + 1) + p] by {
                        assert(toml_item_paths(*child).contains(p));
                        assert(toml_item_paths(*item).contains(seq![key@] + p));
                        assert(toml_item_texts(*item).contains_key(seq![key@] + p));
                        assert(ks.take(k as int) + (seq![key@] + p) =~= ks.take(k + 1) + p);
                    }
                }
                item = child;
            },
        }
        k += 1;
    }
    proof {
        assert(ks.take(n as int) =~= ks);
        if n > 0 {
            assert(ks + Seq::<Seq<char>>::empty() =~= ks);
        }
    }
    Some(item)
}

/// Whether `keys` can be looked up one after another, starting at `doc`.
pub fn toml_has_path(doc: &Item, keys: &Vec<&str>) -> (r: bool)
    ensures
        r == has_key_path(toml_item_paths(*doc), key_views(keys@)),
{
    item_at(doc, keys).is_some()
}

/// `p` lies on the way along `line`: it leads to an item that `line` passes through, or
/// to one at or below the end of `line`.
pub open spec fn on_line(p: Seq<Seq<char>>, line: Seq<Seq<char>>) -> bool {
    ||| (p.len() <= line.len() && line.take(p.len() as int) == p)
    ||| (line.len() <= p.len() && p.take(line.len() as int) == line)
}

/// Below the key path `line`, `after` holds what `below` holds, with the same items.
pub open spec fn holds_below(
    after: Map<Seq<Seq<char>>, TomlNode>,
    line: Seq<Seq<char>>,
    below: Map<Seq<Seq<char>>, TomlNode>,
) -> bool {
    &&& forall|p: Seq<Seq<char>>| #[trigger]
        after.contains_key(line + p) <==> below.contains_key(p)
    &&& forall|p: Seq<Seq<char>>| #[trigger]
        after.contains_key(line + p) ==> after[line + p] == below[p]
}

/// `after` keeps what `before` holds away from `line`: the items that `line` passes
/// through are still there, and every key path off `line` leads to the same item.
pub open spec fn kept_off_line(
    before: Map<Seq<Seq<char>>, TomlNode>,
    after: Map<Seq<Seq<char>>, TomlNode>,
    line: Seq<Seq<char>>,
) -> bool {
    &&& forall|i: int| 0 <= i < line.len() ==> #[trigger] after.contains_key(line.take(i))
    &&& forall|p: Seq<Seq<char>>|
        #![trigger after.contains_key(p)]
        #![trigger before.contains_key(p)]
        !on_line(p, line) ==> (after.contains_key(p) <==> before.contains_key(p))
    &&& forall|p: Seq<Seq<char>>|
        !on_line(p, line) && #[trigger] after.contains_key(p) ==> after[p] == before[p]
}

/// `after` is `before` with the item at the end of `line` replaced by one that holds
/// `below`.
pub open spec fn edited_below(
    before: Map<Seq<Seq<char>>, TomlNode>,
    after: Map<Seq<Seq<char>>, TomlNode>,
    line: Seq<Seq<char>>,
    below: Map<Seq<Seq<char>>, TomlNode>,
) -> bool {
    holds_below(after, line, below) && kept_off_line(before, after, line)
}

/// `child` holds what `parent` holds below `key`, with the same items.
pub open spec fn continues(
    parent: Map<Seq<Seq<char>>, TomlNode>,
    key: Seq<char>,
    child: Map<Seq<Seq<char>>, TomlNode>,
) -> bool {
    holds_below(parent, seq![key], child)
}

/// An edit below one key of an item, made through an edit below `line` in the item found
/// under that key, is an edit below the key followed by `line`.
proof fn lemma_edited_below_compose(
    before: Map<Seq<Seq<char>>, TomlNode>,
    after: Map<Seq<Seq<char>>, TomlNode>,
    key: Seq<char>,
    child_before: Map<Seq<Seq<char>>, TomlNode>,
    child_after: Map<Seq<Seq<char>>, TomlNode>,
    line: Seq<Seq<char>>,
    below: Map<Seq<Seq<char>>, TomlNode>,
)
    requires
        edited_below(before, after, seq![key], child_after),
        edited_below(child_before, child_after, line, below),
        continues(before, key, child_before),
    ensures
        edited_below(before, after, seq![key] + line, below),
{
    let full = seq![key] + line;
    assert forall|p: Seq<Seq<char>>| #[trigger] after.contains_key(full + p) <==> below.contains_key(p) by {
        assert(full + p =~= seq![key] + (line + p));
    }
    assert forall|p: Seq<Seq<char>>| #[trigger] after.contains_key(full + p) implies after[full + p]
        == below[p] by {
        assert(full + p =~= seq![key] + (line + p));
    }
    assert forall|i: int| 0 <= i < full.len() implies #[trigger] after.contains_key(full.take(i)) by {
        if i == 0 {
            assert(full.take(0) =~= seq![key].take(0));
        } else {
            assert(full.take(i) =~= seq![key] + line.take(i - 1));
            assert(child_after.contains_key(line.take(i - 1)));
        }
    }
    assert forall|p: Seq<Seq<char>>| !on_line(p, full) implies (after.contains_key(p)
        <==> before.contains_key(p)) && (after.contains_key(p) ==> after[p] == before[p]) by {
        if p.len() == 0 {
            assert(full.take(0) =~= p);
        } else if p[0] != key {
            if p.len() <= 1 && seq![key].take(p.len() as int) == p {
                assert(p[0] == seq![key].take(p.len() as int)[0]);
            }
            if 1 <= p.len() && p.take(1) == seq![key] {
                assert(p[0] == p.take(1)[0]);
            }
            assert(!on_line(p, seq![key]));
        } else {
            let r = p.drop_first();
            assert(p =~= seq![key] + r);
            if r.len() <= line.len() && line.take(r.len() as int) == r {
                assert(full.take(p.len() as int) =~= seq![key] + line.take(r.len() as int));
            }
            if line.len() <= r.len() && r.take(line.len() as int) == line {
                assert(p.take(full.len() as int) =~= seq![key] + r.take(line.len() as int));
            }
            assert(!on_line(r, line));
            assert(after.contains_key(p) <==> child_after.contains_key(r));
            assert(child_after.contains_key(r) <==> child_before.contains_key(r));
            assert(child_before.contains_key(r) <==> before.contains_key(p));
        }
    }
}

/// `Item::get_mut` with a string key, the lookup that `item[key]` makes when it is
/// assigned through. Claimed: on an item that is there, it succeeds exactly where the
/// item is a table or an inline table; the item it gives holds what the item holds below
/// `key` (nothing where `key` is missing, as it then adds an empty entry for `key`); and
/// what is then written through it ends up below `key`, the rest of the item kept.
#[verifier::external_body]
fn item_get_mut<'a>(item: &'a mut Item, key: &str) -> (r: Option<&'a mut Item>)
    ensures
        toml_item_paths(*old(item)).contains(Seq::empty()) ==> (r is Some <==> table_like(
            toml_item_nodes(*old(item))[Seq::empty()].kind,
        )),
        r is Some ==> continues(
            toml_item_nodes(*old(item)),
            key@,
            toml_item_nodes(*r.unwrap()),
        ),
        r is Some ==> edited_below(
            toml_item_nodes(*old(item)),
            toml_item_nodes(*final(item)),
            seq![key@],
            toml_item_nodes(*final(r.unwrap())),
        ),
{
    item.get_mut(key)
}

/// `&mut doc[key]`, the entry of `key` in the root table of a document, as assigning
/// through `doc[key]` reaches it. Claimed: the entry holds what the document holds below
/// `key` (nothing where `key` is missing, as it then adds an empty entry for `key`), and
/// what is then written through it ends up below `key`, the rest of the document kept,
/// its root still a table. Indexing the root panics unless the root is a table, so that
/// is required.
#[verifier::external_body]
fn document_entry_mut<'a>(doc: &'a mut Document, key: &str) -> (r: &'a mut Item)
    requires
        root_is_table(toml_document_nodes(*old(doc))),
    ensures
        root_is_table(toml_document_nodes(*final(doc))),
        continues(toml_document_nodes(*old(doc)), key@, toml_item_nodes(*r)),
        edited_below(
            toml_document_nodes(*old(doc)),
            toml_document_nodes(*final(doc)),
            seq![key@],
            toml_item_nodes(*final(r)),
        ),
{
    &mut doc[key]
}

/// `Item::clone`. Claimed: the copy holds the same key paths and texts.
#[verifier::external_body]
fn item_clone(item: &Item) -> (r: Item)
    ensures
        toml_item_nodes(r) == toml_item_nodes(*item),
{
    item.clone()
}

/// `Item::to_string`, the item rendered as TOML text. Claimed: the text that the name
/// assigns to the item, where it is not `Item::None`.
#[verifier::external_body]
fn item_to_string(item: &Item) -> (r: String)
    ensures
        toml_item_texts(*item).contains_key(Seq::empty()) ==> r@ == toml_item_texts(
            *item,
        )[Seq::empty()],
{
    item.to_string()
}

/// `Document::new`. Claimed: the new document has no key, and a table at its root.
#[verifier::external_body]
fn new_document() -> (r: Document)
    ensures
        toml_document_paths(r) == Set::<Seq<Seq<char>>>::empty().insert(Seq::empty()),
        root_is_table(toml_document_nodes(r)),
{
    Document::new()
}

/// `doc[key] = item` on a document. Claimed: below `key` the document now holds what
/// `item` holds, and under every other key what it held; the root stays a table. It
/// indexes the root, which panics unless the root is a table, so that is required.
#[verifier::external_body]
fn document_insert(doc: &mut Document, key: &str, item: Item)
    requires
        root_is_table(toml_document_nodes(*old(doc))),
    ensures
        root_is_table(toml_document_nodes(*final(doc))),
        forall|p: Seq<Seq<char>>|
            #[trigger] toml_document_paths(*final(doc)).contains(seq![key@] + p)
                <==> toml_item_paths(item).contains(p),
        forall|p: Seq<Seq<char>>|
            #[trigger] toml_item_paths(item).contains(p) ==> toml_document_nodes(*final(doc))[seq![key@] + p]
                == toml_item_nodes(item)[p],
        forall|k: Seq<char>, p: Seq<Seq<char>>|
            k != key@ ==> (#[trigger] toml_document_paths(*final(doc)).contains(seq![k] + p)
                <==> toml_document_paths(*old(doc)).contains(seq![k] + p)),
{
    doc[key] = item;
}

/// `Document::to_string`, the document rendered as TOML text. Claimed: the text that the
/// name assigns to the document. It renders the root as a table, which panics unless the
/// root is a table, so that is required.
#[verifier::external_body]
fn document_to_string(doc: &Document) -> (r: String)
    requires
        root_is_table(toml_document_nodes(*doc)),
    ensures
        r@ == toml_document_texts(*doc)[Seq::empty()],
{
    doc.to_string()
}

/// The message that `TomlError::to_string` gives for a parse error.
pub uninterp spec fn toml_error_text(e: TomlError) -> Seq<char>;

/// `TomlError::to_string`, the parse error's message. Claimed: the text that the name
/// assigns to the error.
#[verifier::external_body]
fn toml_error_message(e: &TomlError) -> (r: String)
    ensures
        r@ == toml_error_text(*e),
{
    e.to_string()
}

/// What a key path of a table leads to, as far as this library reads it.
pub enum TomlContent {
    /// A string, with its text.
    Text(Seq<char>),
    /// An array whose elements are all strings, with their texts in order.
    Texts(Seq<Seq<char>>),
    /// Anything else: a table, another value.
    Other,
}

/// The texts of a list of strings, in order.
pub open spec fn string_views(strings: Seq<String>) -> Seq<Seq<char>> {
    strings.map_values(|s: String| s@)
}

/// What a TOML table holds: each of its key paths (the sequences of keys along which
/// lookups succeed one after another, the empty one among them), with the string or the
/// array of strings found there, or `Other` where something else is found.
pub uninterp spec fn toml_table_contents(table: Table) -> Map<Seq<Seq<char>>, TomlContent>;

/// What a TOML inline table holds, as `toml_table_contents` gives it for a table.
pub uninterp spec fn toml_inline_table_contents(table: InlineTable) -> Map<
    Seq<Seq<char>>,
    TomlContent,
>;

/// What a TOML value holds, as `toml_table_contents` gives it for a table: a string value
/// is its text at the empty path, an array of strings their texts; an inline table has
/// its keys below.
pub uninterp spec fn toml_value_contents(value: Value) -> Map<Seq<Seq<char>>, TomlContent>;

/// The contents of an item with nothing below it: the empty path, with `text`.
pub open spec fn leaf_contents(text: TomlContent) -> Map<Seq<Seq<char>>, TomlContent> {
    Map::<Seq<Seq<char>>, TomlContent>::empty().insert(Seq::empty(), text)
}

/// The contents of a table after `key` is set to an item with contents `entry`: below
/// `key` now `entry`, elsewhere as before.
pub open spec fn contents_with_entry(
    before: Map<Seq<Seq<char>>, TomlContent>,
    key: Seq<char>,
    entry: Map<Seq<Seq<char>>, TomlContent>,
) -> Map<Seq<Seq<char>>, TomlContent> {
    Map::new(
        |p: Seq<Seq<char>>|
            if p.len() > 0 && p[0] == key {
                entry.contains_key(p.drop_first())
            } else {
                before.contains_key(p)
            },
        |p: Seq<Seq<char>>|
            if p.len() > 0 && p[0] == key {
                entry[p.drop_first()]
            } else {
                before[p]
            },
    )
}

/// `Table::default`. Claimed: the table holds nothing.
#[verifier::external_body]
fn new_table() -> (r: Table)
    ensures
        toml_table_contents(r) == leaf_contents(TomlContent::Other),
{
    Table::default()
}

/// `table.insert(key, Item::Value(value))`. Claimed: below `key` the table now holds what
/// the value holds, and elsewhere what it held.
#[verifier::external_body]
fn table_insert(table: &mut Table, key: &str, value: Value)
    ensures
        toml_table_contents(*final(table)) == contents_with_entry(
            toml_table_contents(*old(table)),
            key@,
            toml_value_contents(value),
        ),
{
    table.insert(key, Item::Value(value));
}

/// `Value::from(String)`. Claimed: a string value with the given text.
#[verifier::external_body]
fn string_value(s: String) -> (r: Value)
    ensures
        toml_value_contents(r) == leaf_contents(TomlContent::Text(s@)),
{
    Value::from(s)
}

/// `Value::Array(Array::from_iter(values))` on a copy of `values`, an array of TOML
/// strings. Claimed: no key looks into it, and it holds the strings in order.
#[verifier::external_body]
fn string_array_value(values: &Vec<String>) -> (r: Value)
    ensures
        toml_value_contents(r) == leaf_contents(TomlContent::Texts(string_views(values@))),
{
    Value::Array(toml_edit::Array::from_iter(values.clone()))
}

/// `InlineTable::default`. Claimed: the table holds nothing.
#[verifier::external_body]
fn new_inline_table() -> (r: InlineTable)
    ensures
        toml_inline_table_contents(r) == leaf_contents(TomlContent::Other),
{
    InlineTable::default()
}

/// `InlineTable::insert`. Claimed: below `key` the table now holds what the value holds,
/// and elsewhere what it held.
#[verifier::external_body]
fn inline_table_insert(table: &mut InlineTable, key: &str, value: Value)
    ensures
        toml_inline_table_contents(*final(table)) == contents_with_entry(
            toml_inline_table_contents(*old(table)),
            key@,
            toml_value_contents(value),
        ),
{
    table.insert(key, value);
}

/// `Value::InlineTable(table)`. Claimed: the value holds what the table holds.
#[verifier::external_body]
fn inline_table_value(table: InlineTable) -> (r: Value)
    ensures
        toml_value_contents(r) == toml_inline_table_contents(table),
{
    Value::InlineTable(table)
}

/// What an array of tables holds: the contents of each of its tables, in order, as
/// `toml_table_contents` gives them.
pub uninterp spec fn toml_array_of_tables_contents(tables: ArrayOfTables) -> Seq<
    Map<Seq<Seq<char>>, TomlContent>,
>;

/// `*item = Item::ArrayOfTables(ArrayOfTables::new())`. Claimed: the item is now an
/// empty array of tables, which no string key looks into.
#[verifier::external_body]
fn set_empty_array_of_tables(item: &mut Item)
    ensures
        toml_item_paths(*final(item)) == Set::<Seq<Seq<char>>>::empty().insert(Seq::empty()),
        toml_item_nodes(*final(item))[Seq::empty()].kind == TomlKind::ArrayOfTables(Seq::empty()),
{
    *item = Item::ArrayOfTables(ArrayOfTables::new());
}

/// `Item::as_array_of_tables_mut`. Claimed: it succeeds exactly where the item is an
/// array of tables, gives the tables that the item holds, and what is then done to them
/// is what the item then holds.
#[verifier::external_body]
fn item_as_array_of_tables_mut(item: &mut Item) -> (r: Option<&mut ArrayOfTables>)
    ensures
        r is Some <==> (toml_item_paths(*old(item)).contains(Seq::empty()) && toml_item_nodes(
            *old(item),
        )[Seq::empty()].kind is ArrayOfTables),
        r is Some ==> toml_item_nodes(*old(item))[Seq::empty()].kind == TomlKind::ArrayOfTables(
            toml_array_of_tables_contents(*r.unwrap()),
        ),
        r is Some ==> toml_item_paths(*final(item)) == Set::<Seq<Seq<char>>>::empty().insert(
            Seq::empty(),
        ),
        r is Some ==> toml_item_nodes(*final(item))[Seq::empty()].kind == TomlKind::ArrayOfTables(
            toml_array_of_tables_contents(*final(r.unwrap())),
        ),
{
    item.as_array_of_tables_mut()
}

/// `ArrayOfTables::push`. Claimed: the table is appended after the others.
#[verifier::external_body]
fn array_of_tables_push(tables: &mut ArrayOfTables, table: Table)
    ensures
        toml_array_of_tables_contents(*final(tables)) == toml_array_of_tables_contents(
            *old(tables),
        ).push(toml_table_contents(table)),
{
    tables.push(table);
}

/// Why the gha metadata could not be read from or added to a manifest.
#[derive(Debug)]
pub enum ConfigError {
    /// The manifest is not a TOML document; the parser's message.
    Parse(String),
    /// `metadata.gha` is missing under the root that was looked in.
    MissingGhaSection,
    /// An item on the way to `assets` is not a table.
    NotATable,
    /// `assets` exists but is not an array of tables.
    AssetsNotArrayOfTables,
}

/// The two pieces of a manifest that hold the gha metadata, rendered as TOML text.
#[derive(Debug, PartialEq)]
pub struct MetadataSections {
    /// The `[package.metadata.gha]` table.
    pub gha: String,
    /// A document whose key `items` holds the `assets` of `[package.metadata.gha]`, or
    /// else of `[workspace.metadata.gha]`, where either has them.
    pub assets: Option<String>,
}

/// The keys of `<root>.metadata.gha`.
pub open spec fn gha_keys(root: Seq<char>) -> Seq<Seq<char>> {
    seq![root, "metadata"@, "gha"@]
}

/// The keys of `<root>.metadata.gha.assets`.
pub open spec fn assets_keys(root: Seq<char>) -> Seq<Seq<char>> {
    gha_keys(root).push("assets"@)
}

/// The root whose gha metadata is extended: `workspace` where it has a `metadata.gha`
/// table, `package` otherwise.
pub open spec fn metadata_root(paths: Set<Seq<Seq<char>>>) -> Seq<char> {
    if has_key_path(paths, gha_keys("workspace"@)) {
        "workspace"@
    } else {
        "package"@
    }
}

/// Where the assets that are read come from: `package.metadata.gha.assets` where the
/// manifest has it, else `workspace.metadata.gha.assets`.
pub open spec fn assets_source(paths: Set<Seq<Seq<char>>>) -> Seq<Seq<char>> {
    if has_key_path(paths, assets_keys("package"@)) {
        assets_keys("package"@)
    } else {
        assets_keys("workspace"@)
    }
}

/// `doc` holds under `items`, its only key, what `texts` holds below `source`, with the
/// same texts.
pub open spec fn holds_items(
    doc: Document,
    texts: Map<Seq<Seq<char>>, Seq<char>>,
    source: Seq<Seq<char>>,
) -> bool {
    &&& toml_document_paths(doc).contains(Seq::empty())
    &&& forall|p: Seq<Seq<char>>| #[trigger]
        toml_document_paths(doc).contains(seq!["items"@] + p) <==> texts.contains_key(source + p)
    &&& forall|p: Seq<Seq<char>>| #[trigger]
        toml_document_paths(doc).contains(seq!["items"@] + p) ==> toml_document_texts(doc)[seq![
            "items"@,
        ] + p] == texts[source + p]
    &&& forall|k: Seq<char>, p: Seq<Seq<char>>|
        k != "items"@ ==> !#[trigger] toml_document_paths(doc).contains(seq![k] + p)
}

/// `text` is what `toml_edit` renders for a document that holds under `items`, its only
/// key, the assets of a manifest with texts `texts`.
pub open spec fn renders_items(text: Seq<char>, texts: Map<Seq<Seq<char>>, Seq<char>>) -> bool {
    exists|d: Document| #[trigger]
        holds_items(d, texts, assets_source(texts.dom())) && toml_document_texts(d)[Seq::empty()]
            == text
}

/// An item found at the nonempty key path `keys` of the root item of `doc` holds what the
/// document holds below `keys`, with the same texts.
proof fn lemma_found_in_document(doc: Document, root: Item, found: Item, keys: Seq<Seq<char>>)
    requires
        keys.len() > 0,
        toml_item_paths(root) == toml_document_paths(doc),
        forall|p: Seq<Seq<char>>|
            p.len() > 0 && #[trigger] toml_document_texts(doc).contains_key(p) ==> toml_item_texts(
                root,
            )[p] == toml_document_texts(doc)[p],
        forall|p: Seq<Seq<char>>| #[trigger]
            toml_item_paths(found).contains(p) <==> toml_item_paths(root).contains(keys + p),
        forall|p: Seq<Seq<char>>| #[trigger]
            toml_item_texts(found).contains_key(p) ==> toml_item_texts(found)[p] == toml_item_texts(
                root,
            )[keys + p],
    ensures
        forall|p: Seq<Seq<char>>| #[trigger]
            toml_item_paths(found).contains(p) <==> toml_document_paths(doc).contains(keys + p),
        forall|p: Seq<Seq<char>>| #[trigger]
            toml_item_paths(found).contains(p) ==> toml_item_texts(found)[p] == toml_document_texts(
                doc,
            )[keys + p],
{
    assert forall|p: Seq<Seq<char>>| #[trigger] toml_item_paths(found).contains(p) implies toml_item_texts(
        found,
    )[p] == toml_document_texts(doc)[keys + p] by {
        assert(toml_item_texts(found).contains_key(p));
        assert((keys + p).len() > 0);
        assert(toml_document_texts(doc).contains_key(keys + p));
    }
}

/// Reads the gha metadata out of the text of a manifest: the `[package.metadata.gha]`
/// table, and the assets of the package, or else of the workspace.
pub fn deserailize_metadata(manifest: &str) -> (r: Result<MetadataSections, ConfigError>)
    ensures
        toml_parsed_paths(manifest@) is None <==> r matches Err(ConfigError::Parse(_)),
        r matches Err(ConfigError::Parse(message)) ==> (toml_parsed(manifest@) matches Err(m)
            && m == message@),
        r matches Err(ConfigError::MissingGhaSection) <==> (toml_parsed_paths(manifest@) matches Some(
            paths,
        ) && !has_key_path(paths, gha_keys("package"@))),
        r matches Err(e) ==> (e is Parse || e is MissingGhaSection),
        r matches Ok(sections) ==> (toml_parsed_paths(manifest@) matches Some(paths) && (
        sections.assets is Some <==> (has_key_path(paths, assets_keys("package"@)) || has_key_path(
            paths,
            assets_keys("workspace"@),
        )))),
        r matches Ok(sections) ==> (toml_parsed_texts(manifest@) matches Some(texts) && sections.gha@
            == texts[gha_keys("package"@)]),
        r matches Ok(sections) ==> (toml_parsed_texts(manifest@) matches Some(texts) && (
        sections.assets matches Some(t) ==> renders_items(t@, texts))),
{
    let doc = match parse_document(manifest) {
        Ok(doc) => doc,
        Err(e) => {
            return Err(ConfigError::Parse(toml_error_message(&e)));
        },
    };
    let ghost texts = toml_document_texts(doc);
    let root = document_item(&doc);
    let gha_path = vec!["package", "metadata", "gha"];
    assert(gha_path@ == seq!["package", "metadata", "gha"]);
    assert(key_views(gha_path@) =~= gha_keys("package"@));
    let gha = match item_at(root, &gha_path) {
        Some(gha) => gha,
        None => {
            return Err(ConfigError::MissingGhaSection);
        },
    };
    proof {
        lemma_found_in_document(doc, *root, *gha, gha_keys("package"@));
        assert(gha_keys("package"@) + Seq::<Seq<char>>::empty() =~= gha_keys("package"@));
        assert(toml_item_paths(*gha).contains(Seq::<Seq<char>>::empty()));
    }
    let gha_text = item_to_string(gha);

    let package_assets = vec!["package", "metadata", "gha", "assets"];
    let workspace_assets = vec!["workspace", "metadata", "gha", "assets"];
    assert(key_views(package_assets@) =~= assets_keys("package"@));
    assert(key_views(workspace_assets@) =~= assets_keys("workspace"@));
    let ghost src = assets_source(texts.dom());
    let mut asset_doc: Option<Item> = None;
    if let Some(found) = item_at(root, &package_assets) {
        proof {
            lemma_found_in_document(doc, *root, *found, assets_keys("package"@));
            assert(src == assets_keys("package"@));
        }
        let copy = item_clone(found);
        proof {
            assert forall|p: Seq<Seq<char>>| #[trigger] toml_item_paths(copy).contains(p)
                implies toml_item_texts(copy)[p] == texts[src + p] by {
                assert(toml_item_paths(*found).contains(p));
            }
            assert forall|p: Seq<Seq<char>>| #[trigger] toml_item_paths(copy).contains(p)
                <==> texts.contains_key(src + p) by {
                assert(toml_item_paths(*found).contains(p) == toml_item_paths(copy).contains(p));
            }
        }
        asset_doc = Some(copy);
    } else if let Some(found) = item_at(root, &workspace_assets) {
        proof {
            lemma_found_in_document(doc, *root, *found, assets_keys("workspace"@));
            assert(src == assets_keys("workspace"@));
        }
        let copy = item_clone(found);
        proof {
            assert forall|p: Seq<Seq<char>>| #[trigger] toml_item_paths(copy).contains(p)
                implies toml_item_texts(copy)[p] == texts[src + p] by {
                assert(toml_item_paths(*found).contains(p));
            }
            assert forall|p: Seq<Seq<char>>| #[trigger] toml_item_paths(copy).contains(p)
                <==> texts.contains_key(src + p) by {
                assert(toml_item_paths(*found).contains(p) == toml_item_paths(copy).contains(p));
            }
        }
        asset_doc = Some(copy);
    }
    assert(asset_doc matches Some(item) ==> (forall|p: Seq<Seq<char>>| #[trigger]
        toml_item_paths(item).contains(p) <==> texts.contains_key(src + p)) && (forall|
        p: Seq<Seq<char>>,
    | #[trigger] toml_item_paths(item).contains(p) ==> toml_item_texts(item)[p] == texts[src + p]));

    let mut assets: Option<String> = None;
    if let Some(asset_doc) = asset_doc {
        let mut tmp_doc = new_document();
        let ghost empty_doc = tmp_doc;
        let ghost item = asset_doc;
        document_insert(&mut tmp_doc, "items", asset_doc);
        let text = document_to_string(&tmp_doc);
        proof {
            assert forall|k: Seq<char>, p: Seq<Seq<char>>| k != "items"@ implies !#[trigger]
                toml_document_paths(tmp_doc).contains(seq![k] + p) by {
                assert(toml_document_paths(tmp_doc).contains(seq![k] + p) <==> toml_document_paths(
                    empty_doc,
                ).contains(seq![k] + p));
                assert((seq![k] + p).len() > 0);
            }
            assert(holds_items(tmp_doc, texts, src));
            assert(text@ == toml_document_texts(tmp_doc)[Seq::empty()]);
            assert(renders_items(text@, texts));
        }
        assets = Some(text);
    }
    Ok(MetadataSections { gha: gha_text, assets })
}

/// The contents of the `target_archives` inline table of an asset: one string per target.
pub open spec fn archives_contents(archives: Map<Seq<char>, Seq<char>>) -> Map<
    Seq<Seq<char>>,
    TomlContent,
> {
    Map::new(
        |p: Seq<Seq<char>>| p.len() == 0 || (p.len() == 1 && archives.contains_key(p[0])),
        |p: Seq<Seq<char>>|
            if p.len() == 1 {
                TomlContent::Text(archives[p[0]])
            } else {
                TomlContent::Other
            },
    )
}

/// The contents of the table of an asset: its repository and tag as strings under
/// `owner_repo` and `tag`, its binaries as an array of strings, in order, under
/// `binaries`, and its `target_archives`, with the archive of each target as a string
/// below.
pub open spec fn asset_table_contents(asset: Asset) -> Map<Seq<Seq<char>>, TomlContent> {
    Map::new(
        |p: Seq<Seq<char>>|
            p.len() == 0 || p == seq!["owner_repo"@] || p == seq!["tag"@] || p == seq![
                "binaries"@,
            ] || p == seq!["target_archives"@] || (p.len() == 2 && p[0] == "target_archives"@
                && asset.target_archives@.contains_key(p[1])),
        |p: Seq<Seq<char>>|
            if p == seq!["owner_repo"@] {
                TomlContent::Text(asset.owner_repo@)
            } else if p == seq!["tag"@] {
                TomlContent::Text(asset.tag@)
            } else if p == seq!["binaries"@] {
                TomlContent::Texts(string_views(asset.binaries@))
            } else if p.len() == 2 && p[0] == "target_archives"@ {
                TomlContent::Text(asset.target_archives@[p[1]])
            } else {
                TomlContent::Other
            },
    )
}

/// The asset as the TOML table that `assets` holds: `owner_repo`, `tag`, `binaries` and
/// an inline `target_archives` table, the targets in the order they were first inserted.
fn asset_table(asset: &Asset) -> (r: Table)
    ensures
        toml_table_contents(r) == asset_table_contents(*asset),
{
    let mut table = new_table();
    table_insert(&mut table, "owner_repo", string_value(asset.owner_repo.clone()));
    let ghost t1 = toml_table_contents(table);
    table_insert(&mut table, "tag", string_value(asset.tag.clone()));
    let ghost t2 = toml_table_contents(table);
    table_insert(&mut table, "binaries", string_array_value(&asset.binaries));
    let ghost t3 = toml_table_contents(table);
    let mut archives = new_inline_table();
    let entries = asset.target_archives.entries();
    let ghost pairs = pair_views(entries@);
    let n = entries.len();
    let mut i: usize = 0;
    assert(pairs_map(pairs.take(0)) =~= Map::<Seq<char>, Seq<char>>::empty());
    proof {
        let start = archives_contents(pairs_map(pairs.take(0)));
        assert forall|p: Seq<Seq<char>>| #[trigger] start.contains_key(p) implies p =~= Seq::<
            Seq<char>,
        >::empty() by {}
        assert(toml_inline_table_contents(archives) =~= start);
    }
    while i < n
        invariant
            n == entries@.len(),
            pairs == pair_views(entries@),
            i <= n,
            toml_inline_table_contents(archives) == archives_contents(pairs_map(pairs.take(i as int))),
        decreases n - i,
    {
        let ghost before = toml_inline_table_contents(archives);
        let ghost m = pairs_map(pairs.take(i as int));
        let key = entries[i].0.as_str();
        let value = string_value(entries[i].1.clone());
        inline_table_insert(&mut archives, key, value);
        proof {
            assert(pairs.take(i + 1).drop_last() =~= pairs.take(i as int));
            assert(pairs.take(i + 1).last() == pairs[i as int]);
            assert(pairs[i as int] == (key@, entries@[i as int].1@));
            assert(pairs_map(pairs.take(i + 1)) == m.insert(key@, entries@[i as int].1@));
            let now = toml_inline_table_contents(archives);
            let v = entries@[i as int].1@;
            let leaf = leaf_contents(TomlContent::Text(v));
            let goal = archives_contents(m.insert(key@, v));
            assert(now == contents_with_entry(before, key@, leaf));
            assert(before == archives_contents(m));
            assert forall|p: Seq<Seq<char>>| #[trigger] now.contains_key(p) == goal.contains_key(p) && (
            now.contains_key(p) ==> now[p] == goal[p]) by {
                if p.len() > 0 && p[0] == key@ {
                    assert(now.contains_key(p) == leaf.contains_key(p.drop_first()));
                    if p.len() == 1 {
                        assert(p.drop_first() =~= Seq::<Seq<char>>::empty());
                        assert(leaf.contains_key(p.drop_first()));
                        assert(now[p] == TomlContent::Text(v));
                    } else {
                        assert(p.drop_first().len() > 0);
                        assert(!leaf.contains_key(p.drop_first()));
                    }
                } else {
                    assert(now.contains_key(p) == before.contains_key(p));
                    if now.contains_key(p) {
                        assert(now[p] == before[p]);
                    }
                }
            }
            assert(now =~= goal);
        }
        i += 1;
    }
    let ghost before = toml_table_contents(table);
    table_insert(&mut table, "target_archives", inline_table_value(archives));
    proof {
        assert(pairs.take(n as int) =~= pairs);
        reveal_strlit("owner_repo");
        reveal_strlit("tag");
        reveal_strlit("binaries");
        reveal_strlit("target_archives");
        let now = toml_table_contents(table);
        let goal = asset_table_contents(*asset);
        let o = "owner_repo"@;
        let tg = "tag"@;
        let b = "binaries"@;
        let ta = "target_archives"@;
        let arc = archives_contents(asset.target_archives@);
        assert(o.len() == 10 && tg.len() == 3 && b.len() == 8 && ta.len() == 15);
        assert(now == contents_with_entry(t3, ta, arc));
        let bins = leaf_contents(TomlContent::Texts(string_views(asset.binaries@)));
        assert(t3 == contents_with_entry(t2, b, bins));
        assert(t2 == contents_with_entry(t1, tg, leaf_contents(TomlContent::Text(asset.tag@))));
        assert(t1 == contents_with_entry(leaf_contents(TomlContent::Other), o, leaf_contents(TomlContent::Text(asset.owner_repo@))));
        assert forall|p: Seq<Seq<char>>| #[trigger] now.contains_key(p) == goal.contains_key(p) && (
        now.contains_key(p) ==> now[p] == goal[p]) by {
            if p.len() == 0 {
                assert(p =~= Seq::<Seq<char>>::empty());
                assert(p != seq![o] && p != seq![tg] && p != seq![b] && p != seq![ta]);
            } else {
                let rest = p.drop_first();
                let one = p.len() == 1;
                if one {
                    assert(rest =~= Seq::<Seq<char>>::empty());
                    assert(p =~= seq![p[0]]);
                } else {
                    assert(rest.len() > 0);
                    assert(p != seq![o] && p != seq![tg] && p != seq![b] && p != seq![ta]);
                }
                if p.len() == 2 {
                    assert(rest =~= seq![p[1]]);
                }
                if p[0] == ta {
                    assert(now.contains_key(p) == arc.contains_key(rest));
                    assert(p[0] != o && p[0] != tg && p[0] != b);
                } else if p[0] == b {
                    assert(now.contains_key(p) == bins.contains_key(rest));
                    assert(p[0] != o && p[0] != tg);
                } else if p[0] == tg {
                    assert(now.contains_key(p) == leaf_contents(TomlContent::Text(asset.tag@)).contains_key(rest));
                    assert(p[0] != o);
                } else if p[0] == o {
                    assert(now.contains_key(p) == leaf_contents(TomlContent::Text(asset.owner_repo@)).contains_key(rest));
                } else {
                    assert(!now.contains_key(p));
                    if one {
                        assert(p != seq![o] && p != seq![tg] && p != seq![b] && p != seq![ta]);
                    }
                }
            }
        }
        assert(now =~= goal);
    }
    table
}

/// The root whose gha metadata a new asset goes under.
pub fn manifest_root_key(doc: &Item) -> (r: &'static str)
    ensures
        r@ == metadata_root(toml_item_paths(*doc)),
{
    let path = vec!["workspace", "metadata", "gha"];
    assert(key_views(path@) =~= gha_keys("workspace"@));
    if toml_has_path(doc, &path) {
        "workspace"
    } else {
        "package"
    }
}

/// Below `p`, `nodes` holds what `child` holds, with the same items.
proof fn lemma_continues_at(
    nodes: Map<Seq<Seq<char>>, TomlNode>,
    p: Seq<Seq<char>>,
    key: Seq<char>,
    child: Map<Seq<Seq<char>>, TomlNode>,
    grandchild: Map<Seq<Seq<char>>, TomlNode>,
)
    requires
        holds_below(nodes, p, child),
        continues(child, key, grandchild),
    ensures
        holds_below(nodes, p.push(key), grandchild),
{
    assert forall|q: Seq<Seq<char>>| #[trigger] nodes.contains_key(p.push(key) + q)
        <==> grandchild.contains_key(q) by {
        assert(p.push(key) + q =~= p + (seq![key] + q));
    }
    assert forall|q: Seq<Seq<char>>| #[trigger] nodes.contains_key(p.push(key) + q) implies nodes[p.push(
        key,
    ) + q] == grandchild[q] by {
        assert(p.push(key) + q =~= p + (seq![key] + q));
    }
}

/// The item at `root_key.metadata.gha.assets`, looked up for assignment as
/// `doc[root_key]["metadata"]["gha"]["assets"]` does, in a document that has
/// `root_key.metadata.gha`: found exactly where that item is a table or an inline table,
/// holding what the document holds below the path, and what is written through it ends
/// up there, the rest of the document kept.
fn assets_item_mut<'a>(doc: &'a mut Document, root_key: &str) -> (r: Option<&'a mut Item>)
    requires
        root_is_table(toml_document_nodes(*old(doc))),
        well_shaped(toml_document_nodes(*old(doc))),
        toml_document_paths(*old(doc)).contains(gha_keys(root_key@)),
    ensures
        r is Some <==> table_like(toml_document_nodes(*old(doc))[gha_keys(root_key@)].kind),
        root_is_table(toml_document_nodes(*final(doc))),
        r is Some ==> holds_below(
            toml_document_nodes(*old(doc)),
            assets_keys(root_key@),
            toml_item_nodes(*r.unwrap()),
        ),
        r is Some ==> edited_below(
            toml_document_nodes(*old(doc)),
            toml_document_nodes(*final(doc)),
            assets_keys(root_key@),
            toml_item_nodes(*final(r.unwrap())),
        ),
{
    let ghost d0 = toml_document_nodes(*doc);
    let ghost d_final = toml_document_nodes(*final(doc));
    let ghost m = "metadata"@;
    let ghost g = "gha"@;
    let ghost a = "assets"@;
    let ghost k1 = seq![root_key@];
    let ghost k2 = k1.push(m);
    let ghost k3 = k2.push(g);
    proof {
        assert(k3 =~= gha_keys(root_key@));
        assert(k3.push(a) =~= assets_keys(root_key@));
        assert(d0.contains_key(k2.push(g)));
        assert(d0.contains_key(k1.push(m)));
        assert(Seq::<Seq<char>>::empty().push(root_key@) =~= k1);
        assert(d0.contains_key(Seq::<Seq<char>>::empty().push(root_key@)));
    }
    let top = document_entry_mut(doc, root_key);
    let ghost top0 = toml_item_nodes(*top);
    let ghost top_final = toml_item_nodes(*final(top));
    proof {
        assert(k1 + Seq::<Seq<char>>::empty() =~= k1);
        assert(top0.contains_key(Seq::empty()));
        assert(top0[Seq::empty()] == d0[k1]);
        assert(seq![root_key@] =~= k1);
        assert(holds_below(d0, k1, top0));
    }
    let metadata = match item_get_mut(top, "metadata") {
        None => {
            proof {
                assert(false);
            }
            return None;
        },
        Some(metadata) => metadata,
    };
    let ghost metadata0 = toml_item_nodes(*metadata);
    let ghost metadata_final = toml_item_nodes(*final(metadata));
    proof {
        lemma_continues_at(d0, k1, m, top0, metadata0);
        assert(k2 + Seq::<Seq<char>>::empty() =~= k2);
        assert(metadata0.contains_key(Seq::empty()));
        assert(metadata0[Seq::empty()] == d0[k2]);
    }
    let gha = match item_get_mut(metadata, "gha") {
        None => {
            proof {
                assert(false);
            }
            return None;
        },
        Some(gha) => gha,
    };
    let ghost gha0 = toml_item_nodes(*gha);
    let ghost gha_final = toml_item_nodes(*final(gha));
    proof {
        lemma_continues_at(d0, k2, g, metadata0, gha0);
        assert(k3 + Seq::<Seq<char>>::empty() =~= k3);
        assert(gha0.contains_key(Seq::empty()));
        assert(gha0[Seq::empty()] == d0[k3]);
    }
    let r = item_get_mut(gha, "assets");
    proof {
        if r is Some {
            let slot0 = toml_item_nodes(*r.unwrap());
            lemma_continues_at(d0, k3, a, gha0, slot0);
            let slot_final = toml_item_nodes(*final(r.unwrap()));
            lemma_edited_below_compose(metadata0, metadata_final, g, gha0, gha_final, seq![a], slot_final);
            lemma_edited_below_compose(top0, top_final, m, metadata0, metadata_final, seq![g] + seq![a], slot_final);
            lemma_edited_below_compose(d0, d_final, root_key@, top0, top_final, seq![m] + (seq![g] + seq![a]), slot_final);
            assert(seq![root_key@] + (seq![m] + (seq![g] + seq![a])) =~= assets_keys(root_key@));
        }
    }
    r
}

/// The tables of the `assets` array of tables under `root` in a manifest that holds
/// `nodes`: none where it has no such array.
pub open spec fn asset_tables(nodes: Map<Seq<Seq<char>>, TomlNode>, root: Seq<char>) -> Seq<
    Map<Seq<Seq<char>>, TomlContent>,
> {
    if nodes.contains_key(assets_keys(root)) && nodes[assets_keys(root)].kind is ArrayOfTables {
        nodes[assets_keys(root)].kind->ArrayOfTables_0
    } else {
        Seq::empty()
    }
}

/// `after` is the manifest `before` with the table of `asset` appended to the `assets`
/// array of tables under `root`: that array now holds the tables it held (none where it
/// was missing) and then the asset's, and the rest of the manifest is kept.
pub open spec fn appends_asset(
    before: Map<Seq<Seq<char>>, TomlNode>,
    after: Map<Seq<Seq<char>>, TomlNode>,
    root: Seq<char>,
    asset: Asset,
) -> bool {
    &&& kept_off_line(before, after, assets_keys(root))
    &&& after.contains_key(assets_keys(root))
    &&& after[assets_keys(root)].kind == TomlKind::ArrayOfTables(
        asset_tables(before, root).push(asset_table_contents(asset)),
    )
    &&& forall|q: Seq<Seq<char>>| #[trigger] after.contains_key(assets_keys(root) + q) ==> q.len() == 0
}

/// After an asset is appended, the `assets` array of tables holds the tables it held
/// (none where it was missing) and then the asset's, and every key path off the way to it
/// still leads to what it led to.
pub proof fn lemma_appended_assets(
    before: Map<Seq<Seq<char>>, TomlNode>,
    after: Map<Seq<Seq<char>>, TomlNode>,
    root: Seq<char>,
    asset: Asset,
)
    requires
        appends_asset(before, after, root, asset),
    ensures
        asset_tables(after, root) == asset_tables(before, root).push(asset_table_contents(asset)),
        forall|p: Seq<Seq<char>>|
            !on_line(p, assets_keys(root)) ==> (#[trigger] after.contains_key(p)
                <==> before.contains_key(p)),
{
    assert forall|p: Seq<Seq<char>>| !on_line(p, assets_keys(root)) implies (#[trigger] after.contains_key(
        p,
    ) <==> before.contains_key(p)) by {}
}

/// `text` is what `toml_edit` renders for the manifest `before` with `asset` appended
/// under `root`.
pub open spec fn renders_with_asset(
    text: Seq<char>,
    before: Map<Seq<Seq<char>>, TomlNode>,
    root: Seq<char>,
    asset: Asset,
) -> bool {
    exists|d: Document| #[trigger]
        appends_asset(before, toml_document_nodes(d), root, asset) && toml_document_texts(d)[Seq::empty()]
            == text
}

/// The manifest text with `asset` appended to the `assets` array of tables of the gha
/// metadata (of the workspace where it has such metadata, else of the package), the array
/// created where it is missing.
pub fn add_asset(manifest: &str, asset: &Asset) -> (r: Result<String, ConfigError>)
    ensures
        toml_parsed_paths(manifest@) is None <==> r matches Err(ConfigError::Parse(_)),
        r matches Err(ConfigError::Parse(message)) ==> (toml_parsed(manifest@) matches Err(m)
            && m == message@),
        r matches Err(ConfigError::MissingGhaSection) <==> (toml_parsed_paths(manifest@) matches Some(
            paths,
        ) && !has_key_path(paths, gha_keys(metadata_root(paths)))),
        r matches Err(ConfigError::NotATable) <==> (toml_parsed_nodes(manifest@) matches Some(nodes)
            && nodes.contains_key(gha_keys(metadata_root(nodes.dom()))) && !nodes.contains_key(
            assets_keys(metadata_root(nodes.dom())),
        ) && !table_like(nodes[gha_keys(metadata_root(nodes.dom()))].kind)),
        r matches Err(ConfigError::AssetsNotArrayOfTables) <==> (toml_parsed_nodes(manifest@) matches Some(
            nodes,
        ) && nodes.contains_key(assets_keys(metadata_root(nodes.dom())))
            && !(nodes[assets_keys(metadata_root(nodes.dom()))].kind is ArrayOfTables)),
        r matches Ok(t) ==> (toml_parsed_nodes(manifest@) matches Some(nodes) && renders_with_asset(
            t@,
            nodes,
            metadata_root(nodes.dom()),
            *asset,
        )),
{
    let mut doc = match parse_document(manifest) {
        Ok(doc) => doc,
        Err(e) => {
            return Err(ConfigError::Parse(toml_error_message(&e)));
        },
    };
    let ghost d0 = toml_document_nodes(doc);
    let table = asset_table(asset);
    let root_key = manifest_root_key(document_item(&doc));
    let ghost assets_path = assets_keys(root_key@);
    let gha_path = vec![root_key, "metadata", "gha"];
    assert(key_views(gha_path@) =~= gha_keys(root_key@));
    let has_assets = match item_at(document_item(&doc), &gha_path) {
        None => {
            return Err(ConfigError::MissingGhaSection);
        },
        Some(gha) => {
            let found = item_get(gha, "assets");
            proof {
                assert(gha_keys(root_key@) + seq!["assets"@] =~= assets_path);
                assert(found is Some <==> d0.contains_key(assets_path));
            }
            found.is_some()
        },
    };
    proof {
        if has_assets {
            assert(gha_keys(root_key@).push("assets"@) == assets_path);
        }
    }
    match assets_item_mut(&mut doc, root_key) {
        None => {
            return Err(ConfigError::NotATable);
        },
        Some(slot) => {
            let ghost slot_final = toml_item_nodes(*final(slot));
            proof {
                assert(assets_path + Seq::<Seq<char>>::empty() =~= assets_path);
            }
            if !has_assets {
                set_empty_array_of_tables(slot);
            }
            let ghost slot1 = toml_item_nodes(*slot);
            proof {
                if has_assets {
                    assert(slot1[Seq::empty()] == d0[assets_path]);
                }
            }
            match item_as_array_of_tables_mut(slot) {
                None => {
                    return Err(ConfigError::AssetsNotArrayOfTables);
                },
                Some(tables) => {
                    let ghost before = toml_array_of_tables_contents(*tables);
                    proof {
                        assert(before == asset_tables(d0, root_key@));
                    }
                    array_of_tables_push(tables, table);
                },
            }
            proof {
                assert(slot_final.dom() == Set::<Seq<Seq<char>>>::empty().insert(Seq::empty()));
                assert(slot_final[Seq::empty()].kind == TomlKind::ArrayOfTables(
                    asset_tables(d0, root_key@).push(asset_table_contents(*asset)),
                ));
            }
        },
    }
    let ghost d1 = toml_document_nodes(doc);
    let text = document_to_string(&doc);
    proof {
        assert(kept_off_line(d0, d1, assets_path));
        assert(d1.contains_key(assets_path));
        assert(forall|q: Seq<Seq<char>>| #[trigger] d1.contains_key(assets_path + q) ==> q.len() == 0);
        assert(appends_asset(d0, d1, root_key@, *asset));
        assert(renders_with_asset(text@, d0, root_key@, *asset));
    }
    Ok(text)
}

/// A new asset goes under the workspace exactly when the manifest has the key path
/// `workspace.metadata.gha`, and under the package otherwise: a `[workspace]` table
/// without gha metadata, or `workspace.metadata` without `gha`, leaves it with the package.
pub proof fn lemma_root_for_new_assets(paths: Set<Seq<Seq<char>>>)
    ensures
        metadata_root(paths) == "workspace"@ <==> paths.contains(
            seq!["workspace"@, "metadata"@, "gha"@],
        ),
        !paths.contains(seq!["workspace"@, "metadata"@, "gha"@]) ==> metadata_root(paths)
            == "package"@,
{
    reveal_strlit("workspace");
    reveal_strlit("package");
    assert("workspace"@ != "package"@) by {
        assert("workspace"@.len() != "package"@.len());
    }
    assert(gha_keys("workspace"@) =~= seq!["workspace"@, "metadata"@, "gha"@]);
}

/// The gha metadata of a root is at `<root>.metadata.gha`, and its assets at
/// `<root>.metadata.gha.assets`; the assets that are read are the package's wherever the
/// manifest has `package.metadata.gha.assets` (even an empty array), and the workspace's
/// otherwise.
pub proof fn lemma_metadata_key_paths(root: Seq<char>, paths: Set<Seq<Seq<char>>>)
    ensures
        gha_keys(root) == seq![root, "metadata"@, "gha"@],
        assets_keys(root) == seq![root, "metadata"@, "gha"@, "assets"@],
        paths.contains(seq!["package"@, "metadata"@, "gha"@, "assets"@]) ==> assets_source(paths)
            == seq!["package"@, "metadata"@, "gha"@, "assets"@],
        !paths.contains(seq!["package"@, "metadata"@, "gha"@, "assets"@]) ==> assets_source(paths)
            == seq!["workspace"@, "metadata"@, "gha"@, "assets"@],
{
    assert(gha_keys(root) =~= seq![root, "metadata"@, "gha"@]);
    assert(assets_keys(root) =~= seq![root, "metadata"@, "gha"@, "assets"@]);
    assert(assets_keys("package"@) =~= seq!["package"@, "metadata"@, "gha"@, "assets"@]);
    assert(assets_keys("workspace"@) =~= seq!["workspace"@, "metadata"@, "gha"@, "assets"@]);
}

} // verus!
