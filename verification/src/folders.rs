//! The classification result: one ordered bucket of paths per category,
//! built from the scanned entries of the root directory.

use vstd::prelude::*;
use crate::category::Category;
use crate::category::category_name;
use crate::category::spec_classify;
use crate::category::spec_name;
use crate::sniff::classify_bytes;
use crate::sniff::spec_sniff;

verus! {

/// One directory entry handed to the classifier: the entry's full path and
/// the leading bytes read from it, or `None` when reading them failed.
pub struct ScanFile {
    pub path: String,
    pub bytes: Option<Vec<u8>>,
}

/// The view of a scanned entry: its path and, when it was readable, its
/// bytes.
pub open spec fn file_view(f: ScanFile) -> (Seq<char>, Option<Seq<u8>>) {
    (
        f.path@,
        match f.bytes {
            Option::None => Option::None,
            Option::Some(b) => Option::Some(b@),
        },
    )
}

pub open spec fn files_view(s: Seq<ScanFile>) -> Seq<(Seq<char>, Option<Seq<u8>>)> {
    s.map_values(|f: ScanFile| file_view(f))
}

/// The category a scanned entry is assigned: none at all when its bytes
/// could not be read, else the classification of its sniffed content.
pub open spec fn spec_file_category(b: Option<Seq<u8>>) -> Option<Category> {
    match b {
        Option::None => Option::None,
        Option::Some(bs) => Option::Some(spec_classify(spec_sniff(bs))),
    }
}

/// The paths among `files` that are assigned category `c`, in encounter
/// order.
pub open spec fn spec_bucket(
    files: Seq<(Seq<char>, Option<Seq<u8>>)>,
    c: Category,
) -> Seq<Seq<char>>
    decreases files.len(),
{
    if files.len() == 0 {
        Seq::empty()
    } else {
        let rest = spec_bucket(files.drop_last(), c);
        if spec_file_category(files.last().1) == Option::Some(c) {
            rest.push(files.last().0)
        } else {
            rest
        }
    }
}

/// How many of `files` were readable, and so are classified at all.
pub open spec fn count_readable(files: Seq<(Seq<char>, Option<Seq<u8>>)>) -> nat
    decreases files.len(),
{
    if files.len() == 0 {
        0
    } else {
        count_readable(files.drop_last()) + if files.last().1 is Some {
            1nat
        } else {
            0nat
        }
    }
}

/// The views of a sequence of owned strings.
pub open spec fn str_views(s: Seq<String>) -> Seq<Seq<char>> {
    s.map_values(|x: String| x@)
}

/// The classification result: for each category, the paths bucketed into
/// it, in the order the scan encountered them.
#[derive(Debug)]
pub struct PathFolders {
    pub video: Vec<String>,
    pub image: Vec<String>,
    pub audio: Vec<String>,
    pub document: Vec<String>,
    pub compressed: Vec<String>,
    pub book: Vec<String>,
    pub font: Vec<String>,
    pub pdf: Vec<String>,
    pub other: Vec<String>,
}

/// The fixed order in which categories are realized on disk.
pub open spec fn spec_order() -> Seq<Category> {
    seq![
        Category::Video,
        Category::Image,
        Category::Other,
        Category::Pdf,
        Category::Font,
        Category::Book,
        Category::Compressed,
        Category::Document,
        Category::Audio,
    ]
}

impl PathFolders {
    /// The bucket of one category.
    pub open spec fn bucket(self, c: Category) -> Seq<String> {
        match c {
            Category::Video => self.video@,
            Category::Image => self.image@,
            Category::Audio => self.audio@,
            Category::Document => self.document@,
            Category::Compressed => self.compressed@,
            Category::Book => self.book@,
            Category::Font => self.font@,
            Category::Pdf => self.pdf@,
            Category::Other => self.other@,
        }
    }

    pub fn new() -> (r: PathFolders)
        ensures
            forall|c: Category| #[trigger] r.bucket(c) == Seq::<String>::empty(),
    {
        PathFolders {
            video: Vec::new(),
            image: Vec::new(),
            audio: Vec::new(),
            document: Vec::new(),
            compressed: Vec::new(),
            book: Vec::new(),
            font: Vec::new(),
            pdf: Vec::new(),
            other: Vec::new(),
        }
    }

    /// Appends a path to the bucket of `c`, leaving every other bucket as
    /// it was.
    pub fn push(&mut self, c: Category, p: String)
        ensures
            final(self).bucket(c) == old(self).bucket(c).push(p),
            forall|d: Category| d != c ==> #[trigger] final(self).bucket(d) == old(self).bucket(d),
    {
        match c {
            Category::Video => self.video.push(p),
            Category::Image => self.image.push(p),
            Category::Audio => self.audio.push(p),
            Category::Document => self.document.push(p),
            Category::Compressed => self.compressed.push(p),
            Category::Book => self.book.push(p),
            Category::Font => self.font.push(p),
            Category::Pdf => self.pdf.push(p),
            Category::Other => self.other.push(p),
        }
    }

    /// Lays the buckets out in the fixed relocation order, each beside its
    /// category's subdirectory name.
    pub fn into_iteratable(self) -> (r: Vec<(String, Vec<String>)>)
        ensures
            r@.len() == 9,
            forall|k: int|
                0 <= k < 9 ==> (#[trigger] r@[k]).0@ == spec_name(spec_order()[k]) && r@[k].1@
                    == self.bucket(spec_order()[k]),
    {
        let PathFolders { video, image, audio, document, compressed, book, font, pdf, other } =
            self;
        let mut r: Vec<(String, Vec<String>)> = Vec::new();
        r.push((category_name(Category::Video), video));
        r.push((category_name(Category::Image), image));
        r.push((category_name(Category::Other), other));
        r.push((category_name(Category::Pdf), pdf));
        r.push((category_name(Category::Font), font));
        r.push((category_name(Category::Book), book));
        r.push((category_name(Category::Compressed), compressed));
        r.push((category_name(Category::Document), document));
        r.push((category_name(Category::Audio), audio));
        proof {
            assert forall|k: int| 0 <= k < 9 implies (#[trigger] r@[k]).0@ == spec_name(
                spec_order()[k],
            ) && r@[k].1@ == self.bucket(spec_order()[k]) by {
                if k == 0 {
                } else if k == 1 {
                } else if k == 2 {
                } else if k == 3 {
                } else if k == 4 {
                } else if k == 5 {
                } else if k == 6 {
                } else if k == 7 {
                } else {
                    assert(k == 8);
                }
            }
        }
        r
    }
}

/// Classifies every readable entry and buckets its path under its
/// category, in encounter order; entries whose bytes could not be read are
/// excluded from every bucket.
pub fn classify_files(files: &Vec<ScanFile>) -> (r: PathFolders)
    ensures
        forall|c: Category| #[trigger] str_views(r.bucket(c)) == spec_bucket(
            files_view(files@),
            c,
        ),
{
    let ghost fv = files_view(files@);
    let mut folders = PathFolders::new();
    let n = files.len();
    let mut i: usize = 0;
    proof {
        assert forall|c: Category| #[trigger] str_views(folders.bucket(c)) == spec_bucket(
            fv.take(0),
            c,
        ) by {
            assert(str_views(folders.bucket(c)) =~= Seq::<Seq<char>>::empty());
            assert(fv.take(0) =~= Seq::<(Seq<char>, Option<Seq<u8>>)>::empty());
        }
    }
    while i < n
        invariant
            0 <= i <= n,
            n == files@.len(),
            fv == files_view(files@),
            forall|c: Category| #[trigger] str_views(folders.bucket(c)) == spec_bucket(
                fv.take(i as int),
                c,
            ),
        decreases n - i,
    {
        let ghost prev = folders;
        let f = &files[i];
        match &f.bytes {
            Option::None => {
                proof {
                    assert(fv.take(i + 1).drop_last() =~= fv.take(i as int));
                    assert(fv.take(i + 1).last() == file_view(files@[i as int]));
                    assert(spec_file_category(fv.take(i + 1).last().1) is None);
                }
            },
            Option::Some(b) => {
                let c = classify_bytes(b);
                folders.push(c, f.path.clone());
                proof {
                    assert(fv.take(i + 1).drop_last() =~= fv.take(i as int));
                    assert(fv.take(i + 1).last() == file_view(files@[i as int]));
                    assert(spec_file_category(fv.take(i + 1).last().1) == Option::Some(c));
                    assert forall|d: Category| #[trigger] str_views(folders.bucket(d))
                        == spec_bucket(fv.take(i + 1), d) by {
                        if d == c {
                            assert(str_views(folders.bucket(c)) =~= str_views(
                                prev.bucket(c),
                            ).push(files@[i as int].path@));
                        } else {
                            assert(folders.bucket(d) == prev.bucket(d));
                        }
                    }
                }
            },
        }
        i = i + 1;
    }
    proof {
        assert(fv.take(n as int) =~= fv);
    }
    folders
}

/// A path stands in the bucket of `c` exactly when some entry carries that
/// path and is assigned category `c`.
pub proof fn lemma_bucket_elems(
    files: Seq<(Seq<char>, Option<Seq<u8>>)>,
    c: Category,
    x: Seq<char>,
)
    ensures
        spec_bucket(files, c).contains(x) <==> (exists|j: int|
            0 <= j < files.len() && (#[trigger] files[j]).0 == x && spec_file_category(files[j].1)
                == Option::Some(c)),
    decreases files.len(),
{
    if files.len() == 0 {
    } else {
        let rest = files.drop_last();
        lemma_bucket_elems(rest, c, x);
        assert(forall|j: int| 0 <= j < rest.len() ==> #[trigger] rest[j] == files[j]);
        if spec_file_category(files.last().1) == Option::Some(c) {
            let b = spec_bucket(rest, c);
            assert(spec_bucket(files, c) == b.push(files.last().0));
            if spec_bucket(files, c).contains(x) {
                let k = choose|k: int|
                    0 <= k < b.push(files.last().0).len() && b.push(files.last().0)[k] == x;
                if k < b.len() {
                    assert(b.contains(x));
                } else {
                    assert(files[files.len() - 1].0 == x);
                }
            }
            if exists|j: int|
                0 <= j < files.len() && (#[trigger] files[j]).0 == x && spec_file_category(
                    files[j].1,
                ) == Option::Some(c) {
                let j = choose|j: int|
                    0 <= j < files.len() && (#[trigger] files[j]).0 == x && spec_file_category(
                        files[j].1,
                    ) == Option::Some(c);
                if j < files.len() - 1 {
                    assert(rest[j] == files[j]);
                    assert(0 <= j < rest.len() && rest[j].0 == x && spec_file_category(rest[j].1)
                        == Option::Some(c));
                    assert(b.contains(x));
                    let k = choose|k: int| 0 <= k < b.len() && b[k] == x;
                    assert(spec_bucket(files, c)[k] == x);
                } else {
                    assert(spec_bucket(files, c)[b.len() as int] == x);
                }
            }
        } else {
            assert(spec_bucket(files, c) == spec_bucket(rest, c));
            if exists|j: int|
                0 <= j < files.len() && (#[trigger] files[j]).0 == x && spec_file_category(
                    files[j].1,
                ) == Option::Some(c) {
                let j = choose|j: int|
                    0 <= j < files.len() && (#[trigger] files[j]).0 == x && spec_file_category(
                        files[j].1,
                    ) == Option::Some(c);
                assert(j < files.len() - 1);
                assert(rest[j] == files[j]);
                assert(0 <= j < rest.len() && rest[j].0 == x && spec_file_category(rest[j].1)
                    == Option::Some(c));
            }
        }
    }
}

/// The bucket sizes of the nine categories sum to the number of readable
/// entries.
pub proof fn lemma_bucket_sizes(files: Seq<(Seq<char>, Option<Seq<u8>>)>)
    ensures
        spec_bucket(files, Category::Video).len() + spec_bucket(files, Category::Image).len()
            + spec_bucket(files, Category::Audio).len() + spec_bucket(
            files,
            Category::Document,
        ).len() + spec_bucket(files, Category::Compressed).len() + spec_bucket(
            files,
            Category::Book,
        ).len() + spec_bucket(files, Category::Font).len() + spec_bucket(files, Category::Pdf).len()
            + spec_bucket(files, Category::Other).len() == count_readable(files),
    decreases files.len(),
{
    if files.len() == 0 {
    } else {
        lemma_bucket_sizes(files.drop_last());
    }
}

/// Law: the nine buckets partition the readable entries. Every entry whose
/// bytes were read stands, by path, in the bucket of its own category and
/// in no other, and the bucket sizes sum to the count of readable entries.
pub proof fn lemma_partition(files: Seq<(Seq<char>, Option<Seq<u8>>)>)
    requires
        forall|j: int, k: int|
            0 <= j < k < files.len() ==> (#[trigger] files[j]).0 != (#[trigger] files[k]).0,
    ensures
        spec_bucket(files, Category::Video).len() + spec_bucket(files, Category::Image).len()
            + spec_bucket(files, Category::Audio).len() + spec_bucket(
            files,
            Category::Document,
        ).len() + spec_bucket(files, Category::Compressed).len() + spec_bucket(
            files,
            Category::Book,
        ).len() + spec_bucket(files, Category::Font).len() + spec_bucket(files, Category::Pdf).len()
            + spec_bucket(files, Category::Other).len() == count_readable(files),
        forall|i: int, c: Category|
            0 <= i < files.len() && files[i].1 is Some ==> (#[trigger] spec_bucket(
                files,
                c,
            ).contains(files[i].0) <==> Option::Some(c) == spec_file_category(files[i].1)),
{
    lemma_bucket_sizes(files);
    assert forall|i: int, c: Category|
        0 <= i < files.len() && files[i].1 is Some implies (#[trigger] spec_bucket(
        files,
        c,
    ).contains(files[i].0) <==> Option::Some(c) == spec_file_category(files[i].1)) by {
        lemma_bucket_elems(files, c, files[i].0);
        if spec_bucket(files, c).contains(files[i].0) {
            let j = choose|j: int|
                0 <= j < files.len() && (#[trigger] files[j]).0 == files[i].0
                    && spec_file_category(files[j].1) == Option::Some(c);
            assert(j == i);
        }
    }
}

/// Law: an entry whose bytes could not be read is excluded from the
/// classification: its path stands in no category's bucket.
pub proof fn lemma_unreadable_excluded(files: Seq<(Seq<char>, Option<Seq<u8>>)>, i: int)
    requires
        forall|j: int, k: int|
            0 <= j < k < files.len() ==> (#[trigger] files[j]).0 != (#[trigger] files[k]).0,
        0 <= i < files.len(),
        files[i].1 is None,
    ensures
        forall|c: Category| !(#[trigger] spec_bucket(files, c)).contains(files[i].0),
{
    assert forall|c: Category| !(#[trigger] spec_bucket(files, c)).contains(files[i].0) by {
        lemma_bucket_elems(files, c, files[i].0);
        if spec_bucket(files, c).contains(files[i].0) {
            let j = choose|j: int|
                0 <= j < files.len() && (#[trigger] files[j]).0 == files[i].0
                    && spec_file_category(files[j].1) == Option::Some(c);
            assert(j == i);
        }
    }
}

} // verus!
