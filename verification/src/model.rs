//! A model of the scanned root and of one classify-then-relocate run over
//! it, with the laws the run obeys: idempotence, tolerance of a
//! pre-existing category directory, and preservation of non-regular
//! entries.
//!
//! The root is a listing of named nodes in scan order; its layout is the
//! map from names to nodes. A run classifies every readable regular file,
//! then realizes each non-empty category in the fixed order: the
//! subdirectory is created (or accepted when it already is a directory)
//! and each file is renamed into it, one at a time, a collision failing
//! only that one file.

use vstd::prelude::*;
use crate::category::Category;
use crate::category::spec_classify;
use crate::category::spec_name;
use crate::folders::spec_order;
use crate::sniff::spec_sniff;

verus! {

/// A node of the scanned root: a regular file with the bytes a sniff
/// would read (`None` when reading fails), a subdirectory with its own
/// files, or an entry that is neither.
pub enum Node {
    File { content: Option<Seq<u8>> },
    Dir { entries: Map<Seq<char>, Seq<u8>> },
    Special,
}

/// Whether a node is a regular file whose bytes can be read, so that the
/// classifier assigns it a category at all.
pub open spec fn is_readable(n: Node) -> bool {
    match n {
        Node::File { content } => content is Some,
        _ => false,
    }
}

/// The category a node is assigned: none for non-regular entries and for
/// files whose bytes cannot be read.
pub open spec fn node_category(n: Node) -> Option<Category> {
    match n {
        Node::File { content } => match content {
            Option::Some(b) => Option::Some(spec_classify(spec_sniff(b))),
            Option::None => Option::None,
        },
        _ => Option::None,
    }
}

/// The layout a listing describes: its last binding of each name wins,
/// which is the only binding when names are distinct.
pub open spec fn to_map(l: Seq<(Seq<char>, Node)>) -> Map<Seq<char>, Node>
    decreases l.len(),
{
    if l.len() == 0 {
        Map::empty()
    } else {
        to_map(l.drop_last()).insert(l.last().0, l.last().1)
    }
}

/// No two entries of the listing share a name.
pub open spec fn distinct_names(l: Seq<(Seq<char>, Node)>) -> bool {
    forall|i: int, j: int|
        0 <= i < j < l.len() ==> (#[trigger] l[i]).0 != (#[trigger] l[j]).0
}

/// The name and bytes of each entry assigned category `c`, in scan order.
pub open spec fn cat_files(l: Seq<(Seq<char>, Node)>, c: Category) -> Seq<(Seq<char>, Seq<u8>)>
    decreases l.len(),
{
    if l.len() == 0 {
        Seq::empty()
    } else {
        let rest = cat_files(l.drop_last(), c);
        match l.last().1 {
            Node::File { content } => match content {
                Option::Some(b) => if spec_classify(spec_sniff(b)) == c {
                    rest.push((l.last().0, b))
                } else {
                    rest
                },
                Option::None => rest,
            },
            _ => rest,
        }
    }
}

/// One rename of `f` into the directory named `dn`: it succeeds when the
/// directory holds no entry of that name yet, and otherwise fails and
/// leaves the file in place. The second component counts the moves
/// performed.
pub open spec fn move_one(
    m: Map<Seq<char>, Node>,
    dn: Seq<char>,
    f: (Seq<char>, Seq<u8>),
) -> (Map<Seq<char>, Node>, nat) {
    match m[dn] {
        Node::Dir { entries } => if entries.contains_key(f.0) {
            (m, 0)
        } else {
            (m.remove(f.0).insert(dn, Node::Dir { entries: entries.insert(f.0, f.1) }), 1)
        },
        _ => (m, 0),
    }
}

/// The renames of one category's files, in bucket order; a failed rename
/// touches nothing but its own file.
pub open spec fn move_all(
    m: Map<Seq<char>, Node>,
    dn: Seq<char>,
    files: Seq<(Seq<char>, Seq<u8>)>,
) -> (Map<Seq<char>, Node>, nat)
    decreases files.len(),
{
    if files.len() == 0 {
        (m, 0)
    } else {
        let prev = move_all(m, dn, files.drop_last());
        let last = move_one(prev.0, dn, files.last());
        (last.0, prev.1 + last.1)
    }
}

/// One category of the relocation: nothing at all when no file was
/// bucketed into it; otherwise its subdirectory is created, or accepted
/// when it already is a directory, and the files are renamed in turn. Any
/// other creation outcome leaves every file of the category in place.
pub open spec fn step(
    m: Map<Seq<char>, Node>,
    c: Category,
    files: Seq<(Seq<char>, Seq<u8>)>,
) -> (Map<Seq<char>, Node>, nat) {
    let dn = spec_name(c);
    if files.len() == 0 {
        (m, 0)
    } else if !m.contains_key(dn) {
        move_all(m.insert(dn, Node::Dir { entries: Map::empty() }), dn, files)
    } else if m[dn] is Dir {
        move_all(m, dn, files)
    } else {
        (m, 0)
    }
}

/// The categories processed in turn, each on the layout the previous one
/// left.
pub open spec fn run_cats(
    m: Map<Seq<char>, Node>,
    l: Seq<(Seq<char>, Node)>,
    cats: Seq<Category>,
) -> (Map<Seq<char>, Node>, nat)
    decreases cats.len(),
{
    if cats.len() == 0 {
        (m, 0)
    } else {
        let first = step(m, cats.first(), cat_files(l, cats.first()));
        let rest = run_cats(first.0, l, cats.drop_first());
        (rest.0, first.1 + rest.1)
    }
}

/// One whole run on a scanned listing: the final layout and the number of
/// files moved.
pub open spec fn spec_run(l: Seq<(Seq<char>, Node)>) -> (Map<Seq<char>, Node>, nat) {
    run_cats(to_map(l), l, spec_order())
}

/// The bytes of a regular file node.
pub open spec fn file_bytes(n: Node) -> Option<Seq<u8>> {
    match n {
        Node::File { content } => content,
        _ => Option::None,
    }
}

/// No two categories share a subdirectory name.
pub proof fn lemma_cat_names_distinct(c1: Category, c2: Category)
    ensures
        c1 != c2 ==> spec_name(c1) != spec_name(c2),
{
    reveal_strlit("video");
    reveal_strlit("image");
    reveal_strlit("audio");
    reveal_strlit("document");
    reveal_strlit("compressed");
    reveal_strlit("book");
    reveal_strlit("font");
    reveal_strlit("pdf");
    reveal_strlit("other");
    match c1 {
        Category::Video => match c2 {
            Category::Video => {},
            Category::Image => {
                assert("video"@[0] == 'v');
                assert("image"@[0] == 'i');
                assert(spec_name(c1) != spec_name(c2));
            },
            Category::Audio => {
                assert("video"@[0] == 'v');
                assert("audio"@[0] == 'a');
                assert(spec_name(c1) != spec_name(c2));
            },
            Category::Document => {
                assert("video"@[0] == 'v');
                assert("document"@[0] == 'd');
                assert(spec_name(c1) != spec_name(c2));
            },
            Category::Compressed => {
                assert("video"@[0] == 'v');
                assert("compressed"@[0] == 'c');
                assert(spec_name(c1) != spec_name(c2));
            },
            Category::Book => {
                assert("video"@[0] == 'v');
                assert("book"@[0] == 'b');
                assert(spec_name(c1) != spec_name(c2));
            },
            Category::Font => {
                assert("video"@[0] == 'v');
                assert("font"@[0] == 'f');
                assert(spec_name(c1) != spec_name(c2));
            },
            Category::Pdf => {
                assert("video"@[0] == 'v');
                assert("pdf"@[0] == 'p');
                assert(spec_name(c1) != spec_name(c2));
            },
            Category::Other => {
                assert("video"@[0] == 'v');
                assert("other"@[0] == 'o');
                assert(spec_name(c1) != spec_name(c2));
            },
        },
        Category::Image => match c2 {
            Category::Video => {
                assert("image"@[0] == 'i');
                assert("video"@[0] == 'v');
                assert(spec_name(c1) != spec_name(c2));
            },
            Category::Image => {},
            Category::Audio => {
                assert("image"@[0] == 'i');
                assert("audio"@[0] == 'a');
                assert(spec_name(c1) != spec_name(c2));
            },
            Category::Document => {
                assert("image"@[0] == 'i');
                assert("document"@[0] == 'd');
                assert(spec_name(c1) != spec_name(c2));
            },
            Category::Compressed => {
                assert("image"@[0] == 'i');
                assert("compressed"@[0] == 'c');
                assert(spec_name(c1) != spec_name(c2));
            },
            Category::Book => {
                assert("image"@[0] == 'i');
                assert("book"@[0] == 'b');
                assert(spec_name(c1) != spec_name(c2));
            },
            Category::Font => {
                assert("image"@[0] == 'i');
                assert("font"@[0] == 'f');
                assert(spec_name(c1) != spec_name(c2));
            },
            Category::Pdf => {
                assert("image"@[0] == 'i');
                assert("pdf"@[0] == 'p');
                assert(spec_name(c1) != spec_name(c2));
            },
            Category::Other => {
                assert("image"@[0] == 'i');
                assert("other"@[0] == 'o');
                assert(spec_name(c1) != spec_name(c2));
            },
        },
        Category::Audio => match c2 {
            Category::Video => {
                assert("audio"@[0] == 'a');
                assert("video"@[0] == 'v');
                assert(spec_name(c1) != spec_name(c2));
            },
            Category::Image => {
                assert("audio"@[0] == 'a');
                assert("image"@[0] == 'i');
                assert(spec_name(c1) != spec_name(c2));
            },
            Category::Audio => {},
            Category::Document => {
                assert("audio"@[0] == 'a');
                assert("document"@[0] == 'd');
                assert(spec_name(c1) != spec_name(c2));
            },
            Category::Compressed => {
                assert("audio"@[0] == 'a');
                assert("compressed"@[0] == 'c');
                assert(spec_name(c1) != spec_name(c2));
            },
            Category::Book => {
                assert("audio"@[0] == 'a');
                assert("book"@[0] == 'b');
                assert(spec_name(c1) != spec_name(c2));
            },
            Category::Font => {
                assert("audio"@[0] == 'a');
                assert("font"@[0] == 'f');
                assert(spec_name(c1) != spec_name(c2));
            },
            Category::Pdf => {
                assert("audio"@[0] == 'a');
                assert("pdf"@[0] == 'p');
                assert(spec_name(c1) != spec_name(c2));
            },
            Category::Other => {
                assert("audio"@[0] == 'a');
                assert("other"@[0] == 'o');
                assert(spec_name(c1) != spec_name(c2));
            },
        },
        Category::Document => match c2 {
            Category::Video => {
                assert("document"@[0] == 'd');
                assert("video"@[0] == 'v');
                assert(spec_name(c1) != spec_name(c2));
            },
            Category::Image => {
                assert("document"@[0] == 'd');
                assert("image"@[0] == 'i');
                assert(spec_name(c1) != spec_name(c2));
            },
            Category::Audio => {
                assert("document"@[0] == 'd');
                assert("audio"@[0] == 'a');
                assert(spec_name(c1) != spec_name(c2));
            },
            Category::Document => {},
            Category::Compressed => {
                assert("document"@[0] == 'd');
                assert("compressed"@[0] == 'c');
                assert(spec_name(c1) != spec_name(c2));
            },
            Category::Book => {
                assert("document"@[0] == 'd');
                assert("book"@[0] == 'b');
                assert(spec_name(c1) != spec_name(c2));
            },
            Category::Font => {
                assert("document"@[0] == 'd');
                assert("font"@[0] == 'f');
                assert(spec_name(c1) != spec_name(c2));
            },
            Category::Pdf => {
                assert("document"@[0] == 'd');
                assert("pdf"@[0] == 'p');
                assert(spec_name(c1) != spec_name(c2));
            },
            Category::Other => {
                assert("document"@[0] == 'd');
                assert("other"@[0] == 'o');
                assert(spec_name(c1) != spec_name(c2));
            },
        },
        Category::Compressed => match c2 {
            Category::Video => {
                assert("compressed"@[0] == 'c');
                assert("video"@[0] == 'v');
                assert(spec_name(c1) != spec_name(c2));
            },
            Category::Image => {
                assert("compressed"@[0] == 'c');
                assert("image"@[0] == 'i');
                assert(spec_name(c1) != spec_name(c2));
            },
            Category::Audio => {
                assert("compressed"@[0] == 'c');
                assert("audio"@[0] == 'a');
                assert(spec_name(c1) != spec_name(c2));
            },
            Category::Document => {
                assert("compressed"@[0] == 'c');
                assert("document"@[0] == 'd');
                assert(spec_name(c1) != spec_name(c2));
            },
            Category::Compressed => {},
            Category::Book => {
                assert("compressed"@[0] == 'c');
                assert("book"@[0] == 'b');
                assert(spec_name(c1) != spec_name(c2));
            },
            Category::Font => {
                assert("compressed"@[0] == 'c');
                assert("font"@[0] == 'f');
                assert(spec_name(c1) != spec_name(c2));
            },
            Category::Pdf => {
                assert("compressed"@[0] == 'c');
                assert("pdf"@[0] == 'p');
                assert(spec_name(c1) != spec_name(c2));
            },
            Category::Other => {
                assert("compressed"@[0] == 'c');
                assert("other"@[0] == 'o');
                assert(spec_name(c1) != spec_name(c2));
            },
        },
        Category::Book => match c2 {
            Category::Video => {
                assert("book"@[0] == 'b');
                assert("video"@[0] == 'v');
                assert(spec_name(c1) != spec_name(c2));
            },
            Category::Image => {
                assert("book"@[0] == 'b');
                assert("image"@[0] == 'i');
                assert(spec_name(c1) != spec_name(c2));
            },
            Category::Audio => {
                assert("book"@[0] == 'b');
                assert("audio"@[0] == 'a');
                assert(spec_name(c1) != spec_name(c2));
            },
            Category::Document => {
                assert("book"@[0] == 'b');
                assert("document"@[0] == 'd');
                assert(spec_name(c1) != spec_name(c2));
            },
            Category::Compressed => {
                assert("book"@[0] == 'b');
                assert("compressed"@[0] == 'c');
                assert(spec_name(c1) != spec_name(c2));
            },
            Category::Book => {},
            Category::Font => {
                assert("book"@[0] == 'b');
                assert("font"@[0] == 'f');
                assert(spec_name(c1) != spec_name(c2));
            },
            Category::Pdf => {
                assert("book"@[0] == 'b');
                assert("pdf"@[0] == 'p');
                assert(spec_name(c1) != spec_name(c2));
            },
            Category::Other => {
                assert("book"@[0] == 'b');
                assert("other"@[0] == 'o');
                assert(spec_name(c1) != spec_name(c2));
            },
        },
        Category::Font => match c2 {
            Category::Video => {
                assert("font"@[0] == 'f');
                assert("video"@[0] == 'v');
                assert(spec_name(c1) != spec_name(c2));
            },
            Category::Image => {
                assert("font"@[0] == 'f');
                assert("image"@[0] == 'i');
                assert(spec_name(c1) != spec_name(c2));
            },
            Category::Audio => {
                assert("font"@[0] == 'f');
                assert("audio"@[0] == 'a');
                assert(spec_name(c1) != spec_name(c2));
            },
            Category::Document => {
                assert("font"@[0] == 'f');
                assert("document"@[0] == 'd');
                assert(spec_name(c1) != spec_name(c2));
            },
            Category::Compressed => {
                assert("font"@[0] == 'f');
                assert("compressed"@[0] == 'c');
                assert(spec_name(c1) != spec_name(c2));
            },
            Category::Book => {
                assert("font"@[0] == 'f');
                assert("book"@[0] == 'b');
                assert(spec_name(c1) != spec_name(c2));
            },
            Category::Font => {},
            Category::Pdf => {
                assert("font"@[0] == 'f');
                assert("pdf"@[0] == 'p');
                assert(spec_name(c1) != spec_name(c2));
            },
            Category::Other => {
                assert("font"@[0] == 'f');
                assert("other"@[0] == 'o');
                assert(spec_name(c1) != spec_name(c2));
            },
        },
        Category::Pdf => match c2 {
            Category::Video => {
                assert("pdf"@[0] == 'p');
                assert("video"@[0] == 'v');
                assert(spec_name(c1) != spec_name(c2));
            },
            Category::Image => {
                assert("pdf"@[0] == 'p');
                assert("image"@[0] == 'i');
                assert(spec_name(c1) != spec_name(c2));
            },
            Category::Audio => {
                assert("pdf"@[0] == 'p');
                assert("audio"@[0] == 'a');
                assert(spec_name(c1) != spec_name(c2));
            },
            Category::Document => {
                assert("pdf"@[0] == 'p');
                assert("document"@[0] == 'd');
                assert(spec_name(c1) != spec_name(c2));
            },
            Category::Compressed => {
                assert("pdf"@[0] == 'p');
                assert("compressed"@[0] == 'c');
                assert(spec_name(c1) != spec_name(c2));
            },
            Category::Book => {
                assert("pdf"@[0] == 'p');
                assert("book"@[0] == 'b');
                assert(spec_name(c1) != spec_name(c2));
            },
            Category::Font => {
                assert("pdf"@[0] == 'p');
                assert("font"@[0] == 'f');
                assert(spec_name(c1) != spec_name(c2));
            },
            Category::Pdf => {},
            Category::Other => {
                assert("pdf"@[0] == 'p');
                assert("other"@[0] == 'o');
                assert(spec_name(c1) != spec_name(c2));
            },
        },
        Category::Other => match c2 {
            Category::Video => {
                assert("other"@[0] == 'o');
                assert("video"@[0] == 'v');
                assert(spec_name(c1) != spec_name(c2));
            },
            Category::Image => {
                assert("other"@[0] == 'o');
                assert("image"@[0] == 'i');
                assert(spec_name(c1) != spec_name(c2));
            },
            Category::Audio => {
                assert("other"@[0] == 'o');
                assert("audio"@[0] == 'a');
                assert(spec_name(c1) != spec_name(c2));
            },
            Category::Document => {
                assert("other"@[0] == 'o');
                assert("document"@[0] == 'd');
                assert(spec_name(c1) != spec_name(c2));
            },
            Category::Compressed => {
                assert("other"@[0] == 'o');
                assert("compressed"@[0] == 'c');
                assert(spec_name(c1) != spec_name(c2));
            },
            Category::Book => {
                assert("other"@[0] == 'o');
                assert("book"@[0] == 'b');
                assert(spec_name(c1) != spec_name(c2));
            },
            Category::Font => {
                assert("other"@[0] == 'o');
                assert("font"@[0] == 'f');
                assert(spec_name(c1) != spec_name(c2));
            },
            Category::Pdf => {
                assert("other"@[0] == 'o');
                assert("pdf"@[0] == 'p');
                assert(spec_name(c1) != spec_name(c2));
            },
            Category::Other => {},
        },
    }
}

/// Which category stands at each place of the fixed order.
pub proof fn lemma_order_index(t: int)
    requires
        0 <= t < 9,
    ensures
        spec_order()[t] == (if t == 0 {
            Category::Video
        } else if t == 1 {
            Category::Image
        } else if t == 2 {
            Category::Other
        } else if t == 3 {
            Category::Pdf
        } else if t == 4 {
            Category::Font
        } else if t == 5 {
            Category::Book
        } else if t == 6 {
            Category::Compressed
        } else if t == 7 {
            Category::Document
        } else {
            Category::Audio
        }),
{
    if t == 0 {
        assert(spec_order()[0] == Category::Video);
    } else if t == 1 {
        assert(spec_order()[1] == Category::Image);
    } else if t == 2 {
        assert(spec_order()[2] == Category::Other);
    } else if t == 3 {
        assert(spec_order()[3] == Category::Pdf);
    } else if t == 4 {
        assert(spec_order()[4] == Category::Font);
    } else if t == 5 {
        assert(spec_order()[5] == Category::Book);
    } else if t == 6 {
        assert(spec_order()[6] == Category::Compressed);
    } else if t == 7 {
        assert(spec_order()[7] == Category::Document);
    } else {
        assert(spec_order()[8] == Category::Audio);
    }
}

/// Every category stands somewhere in the fixed order.
pub proof fn lemma_order_covers(c: Category)
    ensures
        exists|t: int| 0 <= t < 9 && #[trigger] spec_order()[t] == c,
{
    if c == Category::Video {
        assert(spec_order()[0] == c);
    } else if c == Category::Image {
        assert(spec_order()[1] == c);
    } else if c == Category::Other {
        assert(spec_order()[2] == c);
    } else if c == Category::Pdf {
        assert(spec_order()[3] == c);
    } else if c == Category::Font {
        assert(spec_order()[4] == c);
    } else if c == Category::Book {
        assert(spec_order()[5] == c);
    } else if c == Category::Compressed {
        assert(spec_order()[6] == c);
    } else if c == Category::Document {
        assert(spec_order()[7] == c);
    } else {
        assert(spec_order()[8] == c);
    }
}

/// No category stands twice in the fixed order.
pub proof fn lemma_order_distinct()
    ensures
        forall|a: int, b: int|
            0 <= a < b < 9 ==> #[trigger] spec_order()[a] != #[trigger] spec_order()[b],
{
    assert forall|a: int, b: int| 0 <= a < b < 9 implies #[trigger] spec_order()[a]
        != #[trigger] spec_order()[b] by {
        lemma_order_index(a);
        lemma_order_index(b);
    }
}

/// With distinct names, the layout binds each entry's name to its node.
pub proof fn lemma_to_map_index(l: Seq<(Seq<char>, Node)>, i: int)
    requires
        distinct_names(l),
        0 <= i < l.len(),
    ensures
        to_map(l).contains_key(l[i].0),
        to_map(l)[l[i].0] == l[i].1,
    decreases l.len(),
{
    if i < l.len() - 1 {
        assert(forall|j: int| 0 <= j < l.len() - 1 ==> #[trigger] l.drop_last()[j] == l[j]);
        lemma_to_map_index(l.drop_last(), i);
    }
}

/// Every name the layout binds comes from some entry of the listing.
pub proof fn lemma_to_map_dom(l: Seq<(Seq<char>, Node)>, x: Seq<char>)
    requires
        to_map(l).contains_key(x),
    ensures
        exists|i: int| 0 <= i < l.len() && (#[trigger] l[i]).0 == x,
    decreases l.len(),
{
    if l.len() == 0 {
    } else if l.last().0 == x {
        assert(l[l.len() - 1].0 == x);
    } else {
        lemma_to_map_dom(l.drop_last(), x);
        let i = choose|i: int| 0 <= i < l.drop_last().len() && (#[trigger] l.drop_last()[i]).0 == x;
        assert(l[i].0 == x);
    }
}

/// Every bucketed file names a readable entry of the listing that the
/// classification assigned to that category.
pub proof fn lemma_cat_files_elems(l: Seq<(Seq<char>, Node)>, c: Category, j: int)
    requires
        0 <= j < cat_files(l, c).len(),
    ensures
        exists|i: int|
            0 <= i < l.len() && (#[trigger] l[i]).0 == cat_files(l, c)[j].0 && l[i].1 == (Node::File {
                content: Option::Some(cat_files(l, c)[j].1),
            }) && node_category(l[i].1) == Option::Some(c),
    decreases l.len(),
{
    if l.len() == 0 {
    } else {
        let rest = cat_files(l.drop_last(), c);
        assert(forall|k: int| 0 <= k < l.len() - 1 ==> #[trigger] l.drop_last()[k] == l[k]);
        if j < rest.len() {
            lemma_cat_files_elems(l.drop_last(), c, j);
            let i = choose|i: int|
                0 <= i < l.drop_last().len() && (#[trigger] l.drop_last()[i]).0 == rest[j].0
                    && l.drop_last()[i].1 == (Node::File { content: Option::Some(rest[j].1) })
                    && node_category(l.drop_last()[i].1) == Option::Some(c);
            assert(cat_files(l, c)[j] == rest[j]);
            assert(l[i].0 == cat_files(l, c)[j].0);
        } else {
            assert(cat_files(l, c)[j] == (l.last().0, cat_files(l, c)[j].1));
            assert(l[l.len() - 1].0 == cat_files(l, c)[j].0);
        }
    }
}

/// A readable entry stands in the bucket of its own category.
pub proof fn lemma_entry_in_cat_files(l: Seq<(Seq<char>, Node)>, i: int)
    requires
        0 <= i < l.len(),
        is_readable(l[i].1),
    ensures
        cat_files(l, spec_classify(spec_sniff(file_bytes(l[i].1)->0))).contains(
            (l[i].0, file_bytes(l[i].1)->0),
        ),
    decreases l.len(),
{
    let c = spec_classify(spec_sniff(file_bytes(l[i].1)->0));
    if i == l.len() - 1 {
        let fs = cat_files(l, c);
        assert(fs[fs.len() - 1] == (l[i].0, file_bytes(l[i].1)->0));
    } else {
        assert(forall|k: int| 0 <= k < l.len() - 1 ==> #[trigger] l.drop_last()[k] == l[k]);
        lemma_entry_in_cat_files(l.drop_last(), i);
        let rest = cat_files(l.drop_last(), c);
        let j = choose|j: int| 0 <= j < rest.len() && #[trigger] rest[j] == (l[i].0, file_bytes(l[i].1)->0);
        assert(cat_files(l, c)[j] == rest[j]);
    }
}

/// Within one category the bucketed names are distinct.
pub proof fn lemma_cat_files_distinct(l: Seq<(Seq<char>, Node)>, c: Category)
    requires
        distinct_names(l),
    ensures
        forall|j1: int, j2: int|
            0 <= j1 < j2 < cat_files(l, c).len() ==> (#[trigger] cat_files(l, c)[j1]).0
                != (#[trigger] cat_files(l, c)[j2]).0,
{
    assert forall|j1: int, j2: int| 0 <= j1 < j2 < cat_files(l, c).len() implies (#[trigger] cat_files(
        l,
        c,
    )[j1]).0 != (#[trigger] cat_files(l, c)[j2]).0 by {
        lemma_cat_files_elems(l, c, j1);
        lemma_cat_files_elems(l, c, j2);
        let i1 = choose|i: int|
            0 <= i < l.len() && (#[trigger] l[i]).0 == cat_files(l, c)[j1].0 && l[i].1
                == (Node::File { content: Option::Some(cat_files(l, c)[j1].1) }) && node_category(
                l[i].1,
            ) == Option::Some(c);
        let i2 = choose|i: int|
            0 <= i < l.len() && (#[trigger] l[i]).0 == cat_files(l, c)[j2].0 && l[i].1
                == (Node::File { content: Option::Some(cat_files(l, c)[j2].1) }) && node_category(
                l[i].1,
            ) == Option::Some(c);
        if i1 == i2 {
            lemma_cat_files_same_name(l, c, j1, j2);
        }
    }
}

/// Two bucketed files of one category with one name are one file.
proof fn lemma_cat_files_same_name(l: Seq<(Seq<char>, Node)>, c: Category, j1: int, j2: int)
    requires
        distinct_names(l),
        0 <= j1 <= j2 < cat_files(l, c).len(),
        cat_files(l, c)[j1].0 == cat_files(l, c)[j2].0,
    ensures
        j1 == j2,
    decreases l.len(),
{
    if l.len() == 0 || j1 == j2 {
    } else {
        let rest = cat_files(l.drop_last(), c);
        assert(forall|k: int| 0 <= k < l.len() - 1 ==> #[trigger] l.drop_last()[k] == l[k]);
        if j2 < rest.len() {
            lemma_cat_files_same_name(l.drop_last(), c, j1, j2);
        } else {
            // j2 names the last entry; j1 names an earlier one with the
            // same name, against distinctness.
            assert(j2 == rest.len() && cat_files(l, c)[j2].0 == l.last().0);
            lemma_cat_files_elems(l.drop_last(), c, j1);
            let i = choose|i: int|
                0 <= i < l.drop_last().len() && (#[trigger] l.drop_last()[i]).0 == rest[j1].0
                    && l.drop_last()[i].1 == (Node::File { content: Option::Some(rest[j1].1) })
                    && node_category(l.drop_last()[i].1) == Option::Some(c);
            assert(l[i].0 == l[l.len() - 1].0);
        }
    }
}

/// The files of a directory node.
pub open spec fn dir_entries(n: Node) -> Map<Seq<char>, Seq<u8>> {
    match n {
        Node::Dir { entries } => entries,
        _ => Map::empty(),
    }
}

/// A move pass touches only the directory and the files it renames: any
/// other name keeps its binding.
pub proof fn lemma_move_all_preserves(
    m: Map<Seq<char>, Node>,
    dn: Seq<char>,
    files: Seq<(Seq<char>, Seq<u8>)>,
    x: Seq<char>,
)
    requires
        x != dn,
        forall|j: int| 0 <= j < files.len() ==> (#[trigger] files[j]).0 != x,
    ensures
        move_all(m, dn, files).0.contains_key(x) == m.contains_key(x),
        m.contains_key(x) ==> move_all(m, dn, files).0[x] == m[x],
    decreases files.len(),
{
    if files.len() == 0 {
    } else {
        assert(forall|j: int|
            0 <= j < files.len() - 1 ==> #[trigger] files.drop_last()[j] == files[j]);
        lemma_move_all_preserves(m, dn, files.drop_last(), x);
        assert(files[files.len() - 1].0 != x);
    }
}

/// When the directory holds none of the files' names, the names are
/// distinct and none is the directory's own, every rename of the pass
/// succeeds: each file leaves the root and lands in the directory, whose
/// other entries stay, and the move count is the file count.
pub proof fn lemma_move_all_clean(
    m: Map<Seq<char>, Node>,
    dn: Seq<char>,
    files: Seq<(Seq<char>, Seq<u8>)>,
    d0: Map<Seq<char>, Seq<u8>>,
)
    requires
        m.contains_key(dn),
        m[dn] == (Node::Dir { entries: d0 }),
        forall|j: int| 0 <= j < files.len() ==> !d0.contains_key((#[trigger] files[j]).0),
        forall|j1: int, j2: int|
            0 <= j1 < j2 < files.len() ==> (#[trigger] files[j1]).0 != (#[trigger] files[j2]).0,
        forall|j: int| 0 <= j < files.len() ==> (#[trigger] files[j]).0 != dn,
    ensures
        move_all(m, dn, files).1 == files.len(),
        move_all(m, dn, files).0.contains_key(dn),
        move_all(m, dn, files).0[dn] is Dir,
        forall|j: int|
            0 <= j < files.len() ==> !move_all(m, dn, files).0.contains_key(
                (#[trigger] files[j]).0,
            ),
        forall|j: int|
            0 <= j < files.len() ==> dir_entries(move_all(m, dn, files).0[dn]).contains_key(
                (#[trigger] files[j]).0,
            ) && dir_entries(move_all(m, dn, files).0[dn])[files[j].0] == files[j].1,
        forall|x: Seq<char>|
            #[trigger] dir_entries(move_all(m, dn, files).0[dn]).contains_key(x) ==> d0.contains_key(
                x,
            ) || (exists|j: int| 0 <= j < files.len() && (#[trigger] files[j]).0 == x),
    decreases files.len(),
{
    if files.len() == 0 {
    } else {
        let fs = files.drop_last();
        let last = files.last();
        assert(forall|j: int| 0 <= j < files.len() - 1 ==> #[trigger] fs[j] == files[j]);
        lemma_move_all_clean(m, dn, fs, d0);
        let m1 = move_all(m, dn, fs).0;
        let e1 = dir_entries(m1[dn]);
        assert(!e1.contains_key(last.0)) by {
            if e1.contains_key(last.0) {
                assert(!d0.contains_key(files[files.len() - 1].0));
                let j = choose|j: int| 0 <= j < fs.len() && (#[trigger] fs[j]).0 == last.0;
                assert(files[j].0 == files[files.len() - 1].0);
            }
        }
        let m2 = move_one(m1, dn, last).0;
        assert(m2 == m1.remove(last.0).insert(
            dn,
            Node::Dir { entries: e1.insert(last.0, last.1) },
        ));
        assert(files[files.len() - 1].0 != dn);
        assert forall|j: int| 0 <= j < files.len() implies !m2.contains_key(
            (#[trigger] files[j]).0,
        ) by {
            if j < files.len() - 1 {
                assert(fs[j] == files[j]);
                assert(!m1.contains_key(fs[j].0));
                assert(files[j].0 != dn);
            }
        }
        let e2 = dir_entries(m2[dn]);
        assert(e2 == e1.insert(last.0, last.1));
        assert forall|j: int| 0 <= j < files.len() implies e2.contains_key((#[trigger] files[j]).0)
            && e2[files[j].0] == files[j].1 by {
            if j < files.len() - 1 {
                assert(fs[j] == files[j]);
                assert(e1.contains_key(fs[j].0) && e1[fs[j].0] == fs[j].1);
                assert(files[j].0 != files[files.len() - 1].0);
            }
        }
        assert forall|x: Seq<char>| #[trigger] e2.contains_key(x) implies d0.contains_key(x) || (
        exists|j: int| 0 <= j < files.len() && (#[trigger] files[j]).0 == x) by {
            if x == last.0 {
                assert(files[files.len() - 1].0 == x);
            } else {
                assert(e1.contains_key(x));
                if !d0.contains_key(x) {
                    let j = choose|j: int| 0 <= j < fs.len() && (#[trigger] fs[j]).0 == x;
                    assert(files[j].0 == x);
                }
            }
        }
    }
}

/// A run touches only the processed categories' directories and their
/// bucketed files: any other name keeps its binding.
pub proof fn lemma_run_preserves(
    m: Map<Seq<char>, Node>,
    l: Seq<(Seq<char>, Node)>,
    cats: Seq<Category>,
    x: Seq<char>,
)
    requires
        forall|t: int| 0 <= t < cats.len() ==> spec_name(#[trigger] cats[t]) != x,
        forall|t: int, j: int|
            0 <= t < cats.len() && 0 <= j < cat_files(l, cats[t]).len() ==> (#[trigger] cat_files(
                l,
                cats[t],
            )[j]).0 != x,
    ensures
        run_cats(m, l, cats).0.contains_key(x) == m.contains_key(x),
        m.contains_key(x) ==> run_cats(m, l, cats).0[x] == m[x],
    decreases cats.len(),
{
    if cats.len() == 0 {
    } else {
        let c = cats.first();
        let files = cat_files(l, c);
        assert(cats[0] == c);
        let m1 = step(m, c, files).0;
        assert(m1.contains_key(x) == m.contains_key(x) && (m.contains_key(x) ==> m1[x] == m[x]))
            by {
            if files.len() == 0 {
            } else if !m.contains_key(spec_name(c)) {
                lemma_move_all_preserves(
                    m.insert(spec_name(c), Node::Dir { entries: Map::empty() }),
                    spec_name(c),
                    files,
                    x,
                );
            } else if m[spec_name(c)] is Dir {
                lemma_move_all_preserves(m, spec_name(c), files, x);
            }
        }
        assert(forall|t: int|
            0 <= t < cats.len() - 1 ==> #[trigger] cats.drop_first()[t] == cats[t + 1]);
        lemma_run_preserves(m1, l, cats.drop_first(), x);
    }
}

/// A run on categories with empty buckets changes nothing and moves
/// nothing.
pub proof fn lemma_run_identity(
    m: Map<Seq<char>, Node>,
    l: Seq<(Seq<char>, Node)>,
    cats: Seq<Category>,
)
    requires
        forall|t: int| 0 <= t < cats.len() ==> cat_files(l, #[trigger] cats[t]).len() == 0,
    ensures
        run_cats(m, l, cats) == (m, 0nat),
    decreases cats.len(),
{
    if cats.len() == 0 {
    } else {
        assert(cat_files(l, cats[0]).len() == 0);
        assert(forall|t: int|
            0 <= t < cats.len() - 1 ==> #[trigger] cats.drop_first()[t] == cats[t + 1]);
        lemma_run_identity(m, l, cats.drop_first());
    }
}

/// Every entry name stays clear of the nine category names.
pub open spec fn clear_of_category_names(l: Seq<(Seq<char>, Node)>) -> bool {
    forall|i: int, c: Category|
        #![trigger l[i], spec_name(c)]
        0 <= i < l.len() ==> l[i].0 != spec_name(c)
}

/// Under a clean start every category's pass moves all its files: after
/// the run no readable regular file stands at the root.
pub proof fn lemma_run_clears(
    m: Map<Seq<char>, Node>,
    l: Seq<(Seq<char>, Node)>,
    cats: Seq<Category>,
)
    requires
        distinct_names(l),
        forall|a: int, b: int|
            0 <= a < b < cats.len() ==> spec_name(#[trigger] cats[a]) != spec_name(
                #[trigger] cats[b],
            ),
        forall|t: int| 0 <= t < cats.len() ==> !m.contains_key(spec_name(#[trigger] cats[t])),
        forall|c: Category, j: int, d: Category|
            0 <= j < cat_files(l, c).len() ==> (#[trigger] cat_files(l, c)[j]).0
                != #[trigger] spec_name(d),
        forall|x: Seq<char>|
            m.contains_key(x) && is_readable(#[trigger] m[x]) ==> exists|t: int, j: int|
                0 <= t < cats.len() && 0 <= j < cat_files(l, cats[t]).len() && (#[trigger] cat_files(
                    l,
                    cats[t],
                )[j]).0 == x,
    ensures
        forall|x: Seq<char>|
            run_cats(m, l, cats).0.contains_key(x) ==> !is_readable(
                #[trigger] run_cats(m, l, cats).0[x],
            ),
    decreases cats.len(),
{
    if cats.len() == 0 {
    } else {
        let c = cats.first();
        let dn = spec_name(c);
        let files = cat_files(l, c);
        let rest = cats.drop_first();
        assert(cats[0] == c);
        assert(forall|t: int| 0 <= t < cats.len() - 1 ==> #[trigger] rest[t] == cats[t + 1]);
        lemma_cat_files_distinct(l, c);
        let m1 = step(m, c, files).0;
        if files.len() == 0 {
            assert(m1 == m);
            assert forall|x: Seq<char>| m1.contains_key(x) && is_readable(#[trigger] m1[x]) implies exists|
                t: int,
                j: int,
            |
                0 <= t < rest.len() && 0 <= j < cat_files(l, rest[t]).len() && (#[trigger] cat_files(
                    l,
                    rest[t],
                )[j]).0 == x by {
                let (t, j) = choose|t: int, j: int|
                    0 <= t < cats.len() && 0 <= j < cat_files(l, cats[t]).len() && (#[trigger] cat_files(
                        l,
                        cats[t],
                    )[j]).0 == x;
                assert(t != 0);
                assert(rest[t - 1] == cats[t]);
            }
            lemma_run_clears(m1, l, rest);
        } else {
            assert(!m.contains_key(dn));
            let mi = m.insert(dn, Node::Dir { entries: Map::empty() });
            assert(m1 == move_all(mi, dn, files).0);
            lemma_move_all_clean(mi, dn, files, Map::empty());
            // the remaining categories' names stay unbound
            assert forall|t: int| 0 <= t < rest.len() implies !m1.contains_key(
                spec_name(#[trigger] rest[t]),
            ) by {
                let nm = spec_name(rest[t]);
                assert(rest[t] == cats[t + 1]);
                assert(nm != dn);
                assert(forall|j: int| 0 <= j < files.len() ==> (#[trigger] files[j]).0 != nm);
                lemma_move_all_preserves(mi, dn, files, nm);
                assert(!m.contains_key(nm));
            }
            // every readable file left belongs to a later category
            assert forall|x: Seq<char>| m1.contains_key(x) && is_readable(#[trigger] m1[x]) implies exists|
                t: int,
                j: int,
            |
                0 <= t < rest.len() && 0 <= j < cat_files(l, rest[t]).len() && (#[trigger] cat_files(
                    l,
                    rest[t],
                )[j]).0 == x by {
                assert(m1[dn] is Dir);
                assert(x != dn);
                assert(forall|j: int| 0 <= j < files.len() ==> (#[trigger] files[j]).0 != x);
                lemma_move_all_preserves(mi, dn, files, x);
                assert(m.contains_key(x) && m[x] == m1[x]);
                let (t, j) = choose|t: int, j: int|
                    0 <= t < cats.len() && 0 <= j < cat_files(l, cats[t]).len() && (#[trigger] cat_files(
                        l,
                        cats[t],
                    )[j]).0 == x;
                assert(t != 0);
                assert(rest[t - 1] == cats[t]);
            }
            lemma_run_clears(m1, l, rest);
        }
        assert(run_cats(m, l, cats).0 == run_cats(m1, l, rest).0);
    }
}

/// A listing with no readable file buckets nothing.
pub proof fn lemma_cat_files_empty(l: Seq<(Seq<char>, Node)>, c: Category)
    requires
        forall|i: int| 0 <= i < l.len() ==> !is_readable((#[trigger] l[i]).1),
    ensures
        cat_files(l, c).len() == 0,
    decreases l.len(),
{
    if l.len() == 0 {
    } else {
        assert(forall|i: int| 0 <= i < l.len() - 1 ==> #[trigger] l.drop_last()[i] == l[i]);
        lemma_cat_files_empty(l.drop_last(), c);
        assert(!is_readable(l[l.len() - 1].1));
    }
}

/// What the scan hands the classifier: each regular file entry as its
/// name and, when readable, its bytes, in scan order.
pub open spec fn scan_view(l: Seq<(Seq<char>, Node)>) -> Seq<(Seq<char>, Option<Seq<u8>>)>
    decreases l.len(),
{
    if l.len() == 0 {
        Seq::empty()
    } else {
        let rest = scan_view(l.drop_last());
        match l.last().1 {
            Node::File { content } => rest.push((l.last().0, content)),
            _ => rest,
        }
    }
}

/// Law: the classifier and the run's model agree. The bucket the
/// classifier builds for a category holds exactly the names of the files
/// the model's run moves for it, in the same order.
pub proof fn lemma_buckets_match_the_model(l: Seq<(Seq<char>, Node)>, c: Category)
    ensures
        crate::folders::spec_bucket(scan_view(l), c) == cat_files(l, c).map_values(
            |f: (Seq<char>, Seq<u8>)| f.0,
        ),
    decreases l.len(),
{
    if l.len() == 0 {
        assert(crate::folders::spec_bucket(scan_view(l), c) =~= cat_files(l, c).map_values(
            |f: (Seq<char>, Seq<u8>)| f.0,
        ));
    } else {
        lemma_buckets_match_the_model(l.drop_last(), c);
        let rest = scan_view(l.drop_last());
        match l.last().1 {
            Node::File { content } => {
                assert(scan_view(l) == rest.push((l.last().0, content)));
                assert(scan_view(l).drop_last() =~= rest);
                match content {
                    Option::Some(b) => {
                        if spec_classify(spec_sniff(b)) == c {
                            assert(cat_files(l, c) == cat_files(l.drop_last(), c).push(
                                (l.last().0, b),
                            ));
                            assert(cat_files(l, c).map_values(|f: (Seq<char>, Seq<u8>)| f.0)
                                =~= cat_files(l.drop_last(), c).map_values(
                                |f: (Seq<char>, Seq<u8>)| f.0,
                            ).push(l.last().0));
                        }
                    },
                    Option::None => {},
                }
            },
            _ => {},
        }
    }
}

/// Law: a category subdirectory that exists before the run does not abort
/// its category. The files are renamed into the pre-existing directory
/// exactly as into a fresh one: each whose name the directory does not
/// hold yet leaves the root and lands inside it.
pub proof fn lemma_existing_dir_tolerated(
    m: Map<Seq<char>, Node>,
    c: Category,
    files: Seq<(Seq<char>, Seq<u8>)>,
    d0: Map<Seq<char>, Seq<u8>>,
)
    requires
        m.contains_key(spec_name(c)),
        m[spec_name(c)] == (Node::Dir { entries: d0 }),
        files.len() > 0,
        forall|j: int| 0 <= j < files.len() ==> !d0.contains_key((#[trigger] files[j]).0),
        forall|j1: int, j2: int|
            0 <= j1 < j2 < files.len() ==> (#[trigger] files[j1]).0 != (#[trigger] files[j2]).0,
        forall|j: int| 0 <= j < files.len() ==> (#[trigger] files[j]).0 != spec_name(c),
    ensures
        step(m, c, files) == move_all(m, spec_name(c), files),
        step(m, c, files).1 == files.len(),
        forall|j: int|
            0 <= j < files.len() ==> !step(m, c, files).0.contains_key((#[trigger] files[j]).0),
        forall|j: int|
            0 <= j < files.len() ==> dir_entries(step(m, c, files).0[spec_name(c)]).contains_key(
                (#[trigger] files[j]).0,
            ) && dir_entries(step(m, c, files).0[spec_name(c)])[files[j].0] == files[j].1,
{
    lemma_move_all_clean(m, spec_name(c), files, d0);
}

/// An entry that is assigned no category is never bucketed, and when its
/// name is none of the nine category names the run leaves it bound
/// exactly as it was.
proof fn lemma_unbucketed_untouched(l: Seq<(Seq<char>, Node)>, i: int)
    requires
        distinct_names(l),
        0 <= i < l.len(),
        !is_readable(l[i].1),
        forall|c: Category| l[i].0 != #[trigger] spec_name(c),
    ensures
        forall|c: Category, j: int|
            0 <= j < cat_files(l, c).len() ==> (#[trigger] cat_files(l, c)[j]).0 != l[i].0,
        spec_run(l).0.contains_key(l[i].0),
        spec_run(l).0[l[i].0] == l[i].1,
{
    assert forall|c: Category, j: int| 0 <= j < cat_files(l, c).len() implies (#[trigger] cat_files(
        l,
        c,
    )[j]).0 != l[i].0 by {
        lemma_cat_files_elems(l, c, j);
        let i2 = choose|i2: int|
            0 <= i2 < l.len() && (#[trigger] l[i2]).0 == cat_files(l, c)[j].0 && l[i2].1
                == (Node::File { content: Option::Some(cat_files(l, c)[j].1) }) && node_category(
                l[i2].1,
            ) == Option::Some(c);
        if i2 != i {
            if i2 < i {
                assert(l[i2].0 != l[i].0);
            } else {
                assert(l[i].0 != l[i2].0);
            }
        } else {
            assert(is_readable(l[i].1));
            assert(cat_files(l, c)[j].0 != l[i].0);
        }
    }
    lemma_to_map_index(l, i);
    assert(forall|t: int| 0 <= t < 9 ==> spec_name(#[trigger] spec_order()[t]) != l[i].0);
    lemma_run_preserves(to_map(l), l, spec_order(), l[i].0);
}

/// Law: a non-regular entry of the scanned root is never classified, and
/// when its name is none of the nine category names the run leaves it
/// bound exactly as it was.
pub proof fn lemma_non_regular_untouched(l: Seq<(Seq<char>, Node)>, i: int)
    requires
        distinct_names(l),
        0 <= i < l.len(),
        !(l[i].1 is File),
        forall|c: Category| l[i].0 != #[trigger] spec_name(c),
    ensures
        forall|c: Category, j: int|
            0 <= j < cat_files(l, c).len() ==> (#[trigger] cat_files(l, c)[j]).0 != l[i].0,
        spec_run(l).0.contains_key(l[i].0),
        spec_run(l).0[l[i].0] == l[i].1,
{
    lemma_unbucketed_untouched(l, i);
}

/// Law: a file whose bytes cannot be read during sniffing is in no
/// category and is not moved: when its name is none of the nine category
/// names the run leaves it bound exactly as it was.
pub proof fn lemma_unreadable_untouched(l: Seq<(Seq<char>, Node)>, i: int)
    requires
        distinct_names(l),
        0 <= i < l.len(),
        l[i].1 == (Node::File { content: Option::<Seq<u8>>::None }),
        forall|c: Category| l[i].0 != #[trigger] spec_name(c),
    ensures
        forall|c: Category, j: int|
            0 <= j < cat_files(l, c).len() ==> (#[trigger] cat_files(l, c)[j]).0 != l[i].0,
        spec_run(l).0.contains_key(l[i].0),
        spec_run(l).0[l[i].0] == l[i].1,
{
    lemma_unbucketed_untouched(l, i);
}

/// Law: one failed move never aborts its siblings. With three files of
/// one category whose middle target is taken, the first and third still
/// leave the root and land in the directory, while the middle file stays
/// in place and only it goes unmoved.
pub proof fn lemma_move_failure_isolated(
    m: Map<Seq<char>, Node>,
    dn: Seq<char>,
    f1: (Seq<char>, Seq<u8>),
    f2: (Seq<char>, Seq<u8>),
    f3: (Seq<char>, Seq<u8>),
)
    requires
        m.contains_key(dn),
        m[dn] is Dir,
        dir_entries(m[dn]).contains_key(f2.0),
        !dir_entries(m[dn]).contains_key(f1.0),
        !dir_entries(m[dn]).contains_key(f3.0),
        f1.0 != f2.0 && f1.0 != f3.0 && f2.0 != f3.0,
        f1.0 != dn && f2.0 != dn && f3.0 != dn,
        m.contains_key(f2.0),
    ensures
        move_all(m, dn, seq![f1, f2, f3]).1 == 2,
        !move_all(m, dn, seq![f1, f2, f3]).0.contains_key(f1.0),
        !move_all(m, dn, seq![f1, f2, f3]).0.contains_key(f3.0),
        dir_entries(move_all(m, dn, seq![f1, f2, f3]).0[dn]).contains_key(f1.0),
        dir_entries(move_all(m, dn, seq![f1, f2, f3]).0[dn]).contains_key(f3.0),
        move_all(m, dn, seq![f1, f2, f3]).0.contains_key(f2.0),
        move_all(m, dn, seq![f1, f2, f3]).0[f2.0] == m[f2.0],
{
    reveal_with_fuel(move_all, 5);
    let fs = seq![f1, f2, f3];
    assert(fs.drop_last() =~= seq![f1, f2]);
    assert(seq![f1, f2].drop_last() =~= seq![f1]);
    assert(seq![f1].drop_last() =~= Seq::<(Seq<char>, Seq<u8>)>::empty());
    let e0 = dir_entries(m[dn]);
    let m1 = move_one(m, dn, f1).0;
    assert(move_all(m, dn, seq![f1]) == (m1, 1nat));
    let e1 = dir_entries(m1[dn]);
    assert(e1 == e0.insert(f1.0, f1.1));
    assert(e1.contains_key(f2.0));
    let m2 = move_one(m1, dn, f2).0;
    assert(m2 == m1);
    let m3 = move_one(m2, dn, f3).0;
    assert(!e1.contains_key(f3.0));
    assert(m3 == m2.remove(f3.0).insert(dn, Node::Dir { entries: e1.insert(f3.0, f3.1) }));
}

/// Law (idempotence): when the scanned root's entry names stay clear of
/// the nine category names, a second run on the layout the first run
/// leaves produces that same layout and performs zero moves.
pub proof fn lemma_idempotent(l: Seq<(Seq<char>, Node)>, l2: Seq<(Seq<char>, Node)>)
    requires
        distinct_names(l),
        clear_of_category_names(l),
        distinct_names(l2),
        to_map(l2) == spec_run(l).0,
    ensures
        spec_run(l2).0 == spec_run(l).0,
        spec_run(l2).1 == 0,
{
    let m0 = to_map(l);
    let cats = spec_order();
    // no two of the nine subdirectory names coincide
    assert forall|a: int, b: int| 0 <= a < b < cats.len() implies spec_name(#[trigger] cats[a])
        != spec_name(#[trigger] cats[b]) by {
        lemma_order_distinct();
        lemma_cat_names_distinct(cats[a], cats[b]);
    }
    // no category name is bound at the start
    assert forall|t: int| 0 <= t < cats.len() implies !m0.contains_key(
        spec_name(#[trigger] cats[t]),
    ) by {
        let nm = spec_name(cats[t]);
        if m0.contains_key(nm) {
            lemma_to_map_dom(l, nm);
            let i = choose|i: int| 0 <= i < l.len() && (#[trigger] l[i]).0 == nm;
            assert(l[i].0 != spec_name(cats[t]));
        }
    }
    // no bucketed file is named as a category
    assert forall|c: Category, j: int, d: Category| 0 <= j < cat_files(l, c).len() implies (
    #[trigger] cat_files(l, c)[j]).0 != #[trigger] spec_name(d) by {
        lemma_cat_files_elems(l, c, j);
        let i = choose|i: int|
            0 <= i < l.len() && (#[trigger] l[i]).0 == cat_files(l, c)[j].0 && l[i].1
                == (Node::File { content: Option::Some(cat_files(l, c)[j].1) }) && node_category(
                l[i].1,
            ) == Option::Some(c);
        assert(l[i].0 != spec_name(d));
    }
    // every readable file at the root belongs to some category's bucket
    assert forall|x: Seq<char>| m0.contains_key(x) && is_readable(#[trigger] m0[x]) implies exists|
        t: int,
        j: int,
    |
        0 <= t < cats.len() && 0 <= j < cat_files(l, cats[t]).len() && (#[trigger] cat_files(
            l,
            cats[t],
        )[j]).0 == x by {
        lemma_to_map_dom(l, x);
        let i = choose|i: int| 0 <= i < l.len() && (#[trigger] l[i]).0 == x;
        lemma_to_map_index(l, i);
        assert(l[i].1 == m0[x]);
        lemma_entry_in_cat_files(l, i);
        let ci = spec_classify(spec_sniff(file_bytes(l[i].1)->0));
        let fs = cat_files(l, ci);
        let j = choose|j: int| 0 <= j < fs.len() && #[trigger] fs[j] == (l[i].0, file_bytes(l[i].1)->0);
        lemma_order_covers(ci);
        let t = choose|t: int| 0 <= t < 9 && #[trigger] spec_order()[t] == ci;
        assert(0 <= t < cats.len() && 0 <= j < cat_files(l, cats[t]).len() && cat_files(
            l,
            cats[t],
        )[j].0 == x);
    }
    lemma_run_clears(m0, l, cats);
    let m1 = spec_run(l).0;
    // the layout the first run left holds no readable file, so the second
    // scan buckets nothing
    assert forall|i: int| 0 <= i < l2.len() implies !is_readable((#[trigger] l2[i]).1) by {
        lemma_to_map_index(l2, i);
        assert(m1.contains_key(l2[i].0) && m1[l2[i].0] == l2[i].1);
    }
    assert forall|t: int| 0 <= t < cats.len() implies cat_files(l2, #[trigger] cats[t]).len()
        == 0 by {
        lemma_cat_files_empty(l2, cats[t]);
    }
    lemma_run_identity(to_map(l2), l2, cats);
}

} // verus!
