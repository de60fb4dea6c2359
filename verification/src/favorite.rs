//! The words of a file of favourites: an XML document of folders, in which
//! the words stand two levels below their folder.

use crate::text::{is_whitespace, texts, white_space};
use vstd::prelude::*;

verus! {

/// One attribute of an element: its local name and its value.
pub struct XmlAttribute {
    pub name: String,
    pub value: String,
}

/// One node of a document. A node's place in the list of the document's
/// nodes is its id; `parent` is the id of the node above it.
pub struct XmlNode {
    pub parent: Option<usize>,
    pub attributes: Vec<XmlAttribute>,
    pub text: Option<String>,
}

/// The mathematical content of an [`XmlNode`].
pub struct XmlNodeView {
    pub parent: Option<usize>,
    pub attributes: Seq<(Seq<char>, Seq<char>)>,
    pub text: Option<Seq<char>>,
}

impl View for XmlNode {
    type V = XmlNodeView;

    open spec fn view(&self) -> XmlNodeView {
        XmlNodeView {
            parent: self.parent,
            attributes: self.attributes@.map_values(|a: XmlAttribute| (a.name@, a.value@)),
            text: match self.text {
                Some(t) => Some(t@),
                None => None,
            },
        }
    }
}

/// The contents of a list of nodes.
pub open spec fn node_views(nodes: Seq<XmlNode>) -> Seq<XmlNodeView> {
    nodes.map_values(|n: XmlNode| n@)
}

/// Why no words could be read.
#[derive(Clone, Copy, Debug, PartialEq, Eq, Structural)]
pub enum FavoriteError {
    /// The text is not a well-formed XML document.
    Malformed,
    /// The document has no folder of the name asked for.
    NoSuchFolder,
}

/// The nodes of the XML document `xml` in document order, the root node
/// first, as the `roxmltree` crate parses it; nothing where it does not
/// parse.
pub uninterp spec fn document_nodes(xml: Seq<char>) -> Option<Seq<XmlNodeView>>;

/// Calls `roxmltree::Document::parse` and lists what `descendants` yields,
/// which is every node of the document in the order of their ids, counted
/// from 0. Of each node it keeps the id of `parent`, the local name and the
/// value of each of `attributes`, and `text`. A text that does not parse
/// gives nothing.
#[verifier::external_body]
pub(crate) fn parse_nodes(xml: &str) -> (r: Option<Vec<XmlNode>>)
    ensures
        match r {
            Some(nodes) => document_nodes(xml@) == Some(node_views(nodes@)),
            None => document_nodes(xml@) is None,
        },
{
    let doc = roxmltree::Document::parse(xml).ok()?;
    Some(doc.descendants().map(|n| XmlNode {
        parent: n.parent().map(|p| p.id().get_usize()),
        attributes: n.attributes().map(|a| XmlAttribute {
            name: a.name().to_owned(),
            value: a.value().to_owned(),
        }).collect(),
        text: n.text().map(str::to_owned),
    }).collect())
}

/// A text of white space only.
pub open spec fn blank(text: Seq<char>) -> bool {
    forall|i: int| 0 <= i < text.len() ==> white_space(#[trigger] text[i])
}

/// Tells whether `text` is white space only.
pub fn is_blank(text: &str) -> (r: bool)
    ensures
        r == blank(text@),
{
    let n = text.unicode_len();
    let mut i: usize = 0;
    while i < n
        invariant
            i <= n,
            n == text@.len(),
            forall|j: int| 0 <= j < i ==> white_space(#[trigger] text@[j]),
        decreases n - i,
    {
        if !is_whitespace(text.get_char(i)) {
            return false;
        }
        i += 1;
    }
    true
}

/// The value of the first attribute called `key`.
pub open spec fn attribute(attributes: Seq<(Seq<char>, Seq<char>)>, key: Seq<char>) -> Option<Seq<char>>
    decreases attributes.len(),
{
    if attributes.len() == 0 {
        None
    } else if attributes[0].0 == key {
        Some(attributes[0].1)
    } else {
        attribute(attributes.drop_first(), key)
    }
}

/// Node `i` exists and is the first whose attribute `name` is `folder`.
pub open spec fn is_folder(nodes: Seq<XmlNodeView>, i: int, folder: Seq<char>) -> bool {
    &&& 0 <= i < nodes.len()
    &&& attribute(nodes[i].attributes, "name"@) == Some(folder)
    &&& forall|j: int|
        0 <= j < i ==> attribute((#[trigger] nodes[j]).attributes, "name"@) != Some(folder)
}

/// The test for a node below node `parent` that has a text.
pub open spec fn text_below(parent: usize) -> spec_fn(XmlNodeView) -> bool {
    |node: XmlNodeView| node.parent == Some(parent) && node.text is Some
}

/// The text of a node.
pub open spec fn text_of() -> spec_fn(XmlNodeView) -> Seq<char> {
    |node: XmlNodeView| node.text->0
}

/// The texts of the children of node `parent`, in document order.
pub open spec fn child_texts(nodes: Seq<XmlNodeView>, parent: usize) -> Seq<Seq<char>> {
    nodes.filter(text_below(parent)).map_values(text_of())
}

/// The texts of the grandchildren of node `top` below its children among the
/// first `upto` nodes: child by child, and within a child in document order.
pub open spec fn grandchild_texts(nodes: Seq<XmlNodeView>, top: usize, upto: int) -> Seq<Seq<char>>
    decreases upto,
{
    if upto <= 0 {
        Seq::empty()
    } else if nodes[upto - 1].parent == Some(top) {
        grandchild_texts(nodes, top, upto - 1) + child_texts(nodes, (upto - 1) as usize)
    } else {
        grandchild_texts(nodes, top, upto - 1)
    }
}

/// The texts of the grandchildren of the first `upto` nodes, node by node.
pub open spec fn all_grandchild_texts(nodes: Seq<XmlNodeView>, upto: int) -> Seq<Seq<char>>
    decreases upto,
{
    if upto <= 0 {
        Seq::empty()
    } else {
        all_grandchild_texts(nodes, upto - 1) + grandchild_texts(
            nodes,
            (upto - 1) as usize,
            nodes.len() as int,
        )
    }
}

/// The test for a text that is not blank.
pub open spec fn not_blank() -> spec_fn(Seq<char>) -> bool {
    |text: Seq<char>| !blank(text)
}

/// The words of the folder called `folder`: the texts two levels below the
/// first node of that name. Without such a node there are none to give.
pub open spec fn folder_words(nodes: Seq<XmlNodeView>, folder: Seq<char>) -> Option<Seq<Seq<char>>> {
    if exists|i: int| is_folder(nodes, i, folder) {
        let i = choose|i: int| is_folder(nodes, i, folder);
        Some(grandchild_texts(nodes, i as usize, nodes.len() as int))
    } else {
        None
    }
}

/// Every word of the document: the texts two levels below any node that are
/// not blank.
pub open spec fn all_words(nodes: Seq<XmlNodeView>) -> Seq<Seq<char>> {
    all_grandchild_texts(nodes, nodes.len() as int).filter(not_blank())
}

/// The value of the first attribute of `node` called `key`.
pub fn attribute_of<'a>(node: &'a XmlNode, key: &str) -> (r: Option<&'a String>)
    ensures
        match r {
            Some(value) => attribute(node@.attributes, key@) == Some(value@),
            None => attribute(node@.attributes, key@) is None,
        },
{
    let wanted = String::from_str(key);
    let ghost all = node@.attributes;
    let mut i: usize = 0;
    proof {
        assert(all.skip(0) =~= all);
    }
    while i < node.attributes.len()
        invariant
            i <= node.attributes.len(),
            wanted@ == key@,
            all == node@.attributes,
            all.len() == node.attributes@.len(),
            attribute(all, key@) == attribute(all.skip(i as int), key@),
        decreases node.attributes.len() - i,
    {
        proof {
            assert(all.skip(i as int)[0] == all[i as int]);
            assert(all[i as int] == (node.attributes@[i as int].name@, node.attributes@[i as int].value@));
            assert(all.skip(i as int).drop_first() =~= all.skip(i + 1));
        }
        if node.attributes[i].name == wanted {
            return Some(&node.attributes[i].value);
        }
        i += 1;
    }
    None
}

/// Appends to `out` the texts of the children of node `parent`.
pub fn push_child_texts(nodes: &Vec<XmlNode>, parent: usize, out: &mut Vec<String>)
    ensures
        texts(final(out)@) == texts(old(out)@) + child_texts(node_views(nodes@), parent),
{
    let ghost all = node_views(nodes@);
    let ghost pred = text_below(parent);
    let mut i: usize = 0;
    proof {
        reveal(Seq::filter);
        assert(all.take(0) =~= Seq::<XmlNodeView>::empty());
        assert(texts(out@) =~= texts(old(out)@) + all.take(0).filter(pred).map_values(text_of()));
    }
    while i < nodes.len()
        invariant
            i <= nodes.len(),
            all == node_views(nodes@),
            pred == text_below(parent),
            texts(out@) == texts(old(out)@) + all.take(i as int).filter(pred).map_values(text_of()),
        decreases nodes.len() - i,
    {
        let node = &nodes[i];
        let ghost before = all.take(i as int);
        proof {
            assert(all.take(i + 1) =~= before.push(all[i as int]));
            before.lemma_filter_push(all[i as int], pred);
            assert(all[i as int] == node@);
        }
        let below = match node.parent {
            Some(p) => p == parent,
            None => false,
        };
        if below {
            match &node.text {
                Some(text) => {
                    let ghost kept = texts(out@);
                    out.push(text.clone());
                    proof {
                        assert(texts(out@) =~= kept.push(text@));
                        assert(before.filter(pred).push(all[i as int]).map_values(text_of())
                            =~= before.filter(pred).map_values(text_of()).push(text@));
                    }
                },
                None => {},
            }
        }
        i += 1;
    }
    proof {
        assert(all.take(nodes@.len() as int) =~= all);
    }
}

/// Appends to `out` the texts of the grandchildren of node `top`.
pub fn push_grandchild_texts(nodes: &Vec<XmlNode>, top: usize, out: &mut Vec<String>)
    ensures
        texts(final(out)@) == texts(old(out)@) + grandchild_texts(
            node_views(nodes@),
            top,
            nodes@.len() as int,
        ),
{
    let ghost all = node_views(nodes@);
    let mut i: usize = 0;
    proof {
        assert(texts(out@) =~= texts(old(out)@) + grandchild_texts(all, top, 0));
    }
    while i < nodes.len()
        invariant
            i <= nodes.len(),
            all == node_views(nodes@),
            texts(out@) == texts(old(out)@) + grandchild_texts(all, top, i as int),
        decreases nodes.len() - i,
    {
        let below = match nodes[i].parent {
            Some(p) => p == top,
            None => false,
        };
        proof {
            assert(all[i as int] == nodes@[i as int]@);
        }
        if below {
            let ghost kept = texts(out@);
            push_child_texts(nodes, i, out);
            proof {
                assert(texts(out@) =~= texts(old(out)@) + (grandchild_texts(all, top, i as int)
                    + child_texts(all, i)));
            }
        }
        i += 1;
    }
}

/// The index of the first node whose attribute `name` is `folder`.
pub fn find_folder(nodes: &Vec<XmlNode>, folder: &str) -> (r: Option<usize>)
    ensures
        match r {
            Some(i) => is_folder(node_views(nodes@), i as int, folder@),
            None => !(exists|i: int| is_folder(node_views(nodes@), i, folder@)),
        },
{
    let wanted = String::from_str(folder);
    let ghost all = node_views(nodes@);
    let mut i: usize = 0;
    while i < nodes.len()
        invariant
            i <= nodes.len(),
            wanted@ == folder@,
            all == node_views(nodes@),
            forall|j: int|
                0 <= j < i ==> attribute((#[trigger] all[j]).attributes, "name"@) != Some(folder@),
        decreases nodes.len() - i,
    {
        proof {
            assert(all[i as int] == nodes@[i as int]@);
        }
        let named = match attribute_of(&nodes[i], "name") {
            Some(value) => *value == wanted,
            None => false,
        };
        if named {
            return Some(i);
        }
        i += 1;
    }
    proof {
        assert forall|k: int| !is_folder(all, k, folder@) by {
            if 0 <= k < all.len() {
                assert(attribute(all[k].attributes, "name"@) != Some(folder@));
            }
        }
    }
    None
}

/// The texts of `words` that are not blank, in their order.
pub fn drop_blank(words: &Vec<String>) -> (r: Vec<String>)
    ensures
        texts(r@) == texts(words@).filter(not_blank()),
{
    let mut out: Vec<String> = Vec::new();
    let ghost all = texts(words@);
    let mut i: usize = 0;
    proof {
        reveal(Seq::filter);
        assert(all.take(0) =~= Seq::<Seq<char>>::empty());
        assert(texts(out@) =~= all.take(0).filter(not_blank()));
    }
    while i < words.len()
        invariant
            i <= words.len(),
            all == texts(words@),
            texts(out@) == all.take(i as int).filter(not_blank()),
        decreases words.len() - i,
    {
        let ghost before = all.take(i as int);
        proof {
            assert(all.take(i + 1) =~= before.push(all[i as int]));
            before.lemma_filter_push(all[i as int], not_blank());
        }
        if !is_blank(words[i].as_str()) {
            let ghost kept = texts(out@);
            out.push(words[i].clone());
            assert(texts(out@) =~= kept.push(all[i as int]));
        }
        i += 1;
    }
    proof {
        assert(all.take(words@.len() as int) =~= all);
    }
    out
}

/// The words of the folder called `folder` in a parsed document.
pub fn words_in_folder(nodes: &Vec<XmlNode>, folder: &str) -> (r: Result<Vec<String>, FavoriteError>)
    ensures
        match r {
            Ok(words) => folder_words(node_views(nodes@), folder@) == Some(texts(words@)),
            Err(e) => e == FavoriteError::NoSuchFolder && folder_words(node_views(nodes@), folder@)
                is None,
        },
{
    match find_folder(nodes, folder) {
        Some(top) => {
            proof {
                let all = node_views(nodes@);
                let c = choose|c: int| is_folder(all, c, folder@);
                assert(c == top) by {
                    if c < top {
                        assert(attribute(all[c].attributes, "name"@) != Some(folder@));
                    } else if top < c {
                        assert(attribute(all[top as int].attributes, "name"@) != Some(folder@));
                    }
                }
            }
            let mut out: Vec<String> = Vec::new();
            push_grandchild_texts(nodes, top, &mut out);
            proof {
                assert(texts(out@) =~= grandchild_texts(node_views(nodes@), top, nodes@.len() as int));
            }
            Ok(out)
        },
        None => Err(FavoriteError::NoSuchFolder),
    }
}

/// Every word of a parsed document.
pub fn words_in_document(nodes: &Vec<XmlNode>) -> (r: Vec<String>)
    ensures
        texts(r@) == all_words(node_views(nodes@)),
{
    let mut found: Vec<String> = Vec::new();
    let ghost all = node_views(nodes@);
    let mut i: usize = 0;
    proof {
        assert(texts(found@) =~= all_grandchild_texts(all, 0));
    }
    while i < nodes.len()
        invariant
            i <= nodes.len(),
            all == node_views(nodes@),
            texts(found@) == all_grandchild_texts(all, i as int),
        decreases nodes.len() - i,
    {
        push_grandchild_texts(nodes, i, &mut found);
        i += 1;
    }
    drop_blank(&found)
}

/// The words of the folder called `folder_name` in the document `xml`.
pub fn extract_words_from_favorites_folder(xml: &str, folder_name: &str) -> (r: Result<
    Vec<String>,
    FavoriteError,
>)
    ensures
        match document_nodes(xml@) {
            None => r == Err::<Vec<String>, FavoriteError>(FavoriteError::Malformed),
            Some(nodes) => match folder_words(nodes, folder_name@) {
                None => r == Err::<Vec<String>, FavoriteError>(FavoriteError::NoSuchFolder),
                Some(words) => r matches Ok(found) && texts(found@) == words,
            },
        },
{
    match parse_nodes(xml) {
        Some(nodes) => words_in_folder(&nodes, folder_name),
        None => Err(FavoriteError::Malformed),
    }
}

/// Every word of the document `xml`.
pub fn extract_all_words_from_favorites(xml: &str) -> (r: Result<Vec<String>, FavoriteError>)
    ensures
        match document_nodes(xml@) {
            None => r == Err::<Vec<String>, FavoriteError>(FavoriteError::Malformed),
            Some(nodes) => r matches Ok(found) && texts(found@) == all_words(nodes),
        },
{
    match parse_nodes(xml) {
        Some(nodes) => Ok(words_in_document(&nodes)),
        None => Err(FavoriteError::Malformed),
    }
}

} // verus!
