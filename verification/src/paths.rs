//! Names of the data files, and the file numbers read back from them.

use vstd::prelude::*;
use vstd::slice::slice_subrange;
use vstd::string::*;
use std::path::PathBuf;
use crate::text;
use crate::text::{
    after_last_index, chars_of, decimal_text, parse_number, push_pad_left, trim_back_index,
    trim_front_index,
};
use crate::workload::DATA_DIR;

verus! {

#[verifier::external_type_specification]
#[verifier::external_body]
pub struct ExPathBuf(PathBuf);

/// The components of `path`, each as its text.
pub uninterp spec fn path_parts(path: PathBuf) -> Seq<Seq<char>>;

/// `part` is the name of one directory entry on any platform: not empty, without
/// separators, and neither `.` nor `..`.
pub open spec fn plain_part(part: Seq<char>) -> bool {
    &&& part.len() > 0
    &&& forall|k: int|
        0 <= k < part.len() ==> #[trigger] part[k] != '/' && part[k] != '\\' && part[k] != ':'
    &&& part != "."@
    &&& part != ".."@
}

/// `PathBuf::from`: a path that consists of one plain name has that name as its
/// only component.
#[verifier::external_body]
fn path_of(name: &str) -> (path: PathBuf)
    requires
        plain_part(name@),
    ensures
        path_parts(path) == seq![name@],
{
    PathBuf::from(name)
}

/// `Path::join`: joining a plain name, which is never absolute, to a path of plain
/// names adds it as the last component.
#[verifier::external_body]
fn path_join(base: &PathBuf, name: &str) -> (path: PathBuf)
    requires
        forall|k: int|
            0 <= k < path_parts(*base).len() ==> plain_part(#[trigger] path_parts(*base)[k]),
        plain_part(name@),
    ensures
        path_parts(path) == path_parts(*base).push(name@),
{
    base.join(name)
}

/// The name of data file `f`: its number in at least four digits.
pub open spec fn file_name_text(f: nat) -> Seq<char> {
    "part-"@ + text::pad_left(text::decimal(f), 4, '0') + ".parquet"@
}

/// The file number that `path` names: after the last slash, any copies of the
/// prefix `part-` and of the suffix `.parquet` left out, what remains is a number.
pub open spec fn id_in(path: Seq<char>) -> Option<usize> {
    text::number(
        text::trim_back(
            text::trim_front(text::after_last(path, '/'), "part-"@),
            ".parquet"@,
        ),
    )
}

/// The name of data file `f`.
pub fn file_name(f: usize) -> (name: String)
    ensures
        name@ == file_name_text(f as nat),
{
    let number = decimal_text(f as u64);
    let mut name = "part-".to_owned();
    push_pad_left(&mut name, number.as_str(), 4, '0');
    name.append(".parquet");
    name
}

/// The path of data file `f` in [`DATA_DIR`].
pub fn file_path(f: usize) -> (path: PathBuf)
    ensures
        path_parts(path) == seq![DATA_DIR@, file_name_text(f as nat)],
{
    let name = file_name(f);
    proof {
        lemma_names_are_plain(f as nat);
    }
    let path = path_join(&path_of(DATA_DIR), name.as_str());
    assert(path_parts(path) =~= seq![DATA_DIR@, file_name_text(f as nat)]);
    path
}

/// The file number in the name at the end of `path`, where it has one.
pub fn file_id(path: &str) -> (id: Option<usize>)
    ensures
        id == id_in(path@),
{
    let chars = chars_of(path);
    let prefix = chars_of("part-");
    let suffix = chars_of(".parquet");
    let all = chars.as_slice();
    let name = slice_subrange(all, after_last_index(all, '/'), all.len());
    let stem = slice_subrange(name, trim_front_index(name, prefix.as_slice()), name.len());
    let number = slice_subrange(stem, 0, trim_back_index(stem, suffix.as_slice()));
    parse_number(number)
}

proof fn lemma_names_are_plain(f: nat)
    ensures
        plain_part(DATA_DIR@),
        plain_part(file_name_text(f)),
        forall|k: int|
            0 <= k < file_name_text(f).len() ==> #[trigger] file_name_text(f)[k] != '/',
{
    use_literals();
    let name = file_name_text(f);
    let digits = text::pad_left(text::decimal(f), 4, '0');
    text::lemma_padded_digits(f, 4);
    assert forall|k: int| 0 <= k < name.len() implies #[trigger] name[k] != '/' && name[k] != '\\'
        && name[k] != ':' by {
        if k < 5 {
            assert(name[k] == "part-"@[k]);
        } else if k < 5 + digits.len() {
            assert(name[k] == digits[k - 5]);
        } else {
            let t = k - 5 - digits.len();
            assert(name[k] == ".parquet"@[t]);
        }
    }
    assert(name.len() > 2);
}

proof fn use_literals()
    ensures
        "part-"@ == seq!['p', 'a', 'r', 't', '-'],
        ".parquet"@ == seq!['.', 'p', 'a', 'r', 'q', 'u', 'e', 't'],
        "data-fts"@ == seq!['d', 'a', 't', 'a', '-', 'f', 't', 's'],
        "."@.len() == 1,
        ".."@.len() == 2,
{
    reveal_strlit("part-");
    reveal_strlit(".parquet");
    reveal_strlit("data-fts");
    reveal_strlit(".");
    reveal_strlit("..");
    assert("part-"@ =~= seq!['p', 'a', 'r', 't', '-']);
    assert(".parquet"@ =~= seq!['.', 'p', 'a', 'r', 'q', 'u', 'e', 't']);
    assert("data-fts"@ =~= seq!['d', 'a', 't', 'a', '-', 'f', 't', 's']);
}

/// The number of a data file is read back from its name, whatever directory
/// stands in front of it.
pub proof fn law_file_id_reads_file_name(f: usize, dir: Seq<char>)
    ensures
        id_in(file_name_text(f as nat)) == Some(f),
        id_in(dir + seq!['/'] + file_name_text(f as nat)) == Some(f),
{
    let name = file_name_text(f as nat);
    let digits = text::pad_left(text::decimal(f as nat), 4, '0');
    use_literals();
    lemma_names_are_plain(f as nat);
    text::lemma_padded_digits(f as nat, 4);
    text::lemma_after_last(Seq::empty(), name, '/');
    text::lemma_after_last(dir + seq!['/'], name, '/');
    assert(Seq::<char>::empty() + name =~= name);
    // the prefix is cut once
    let stem = digits + ".parquet"@;
    assert(name.take(5) =~= "part-"@);
    assert(name.skip(5) =~= stem);
    assert(text::trim_front(stem, "part-"@) == stem) by {
        assert(stem[0] == digits[0]);
        if stem.take(5) == "part-"@ {
            assert(stem.take(5)[0] == 'p');
        }
    }
    assert(text::trim_front(name, "part-"@) == stem);
    // and so is the suffix
    assert(stem.skip(stem.len() - 8) =~= ".parquet"@);
    assert(stem.take(stem.len() - 8) =~= digits);
    assert(text::trim_back(digits, ".parquet"@) == digits) by {
        if digits.len() >= 8 && digits.skip(digits.len() - 8) == ".parquet"@ {
            assert(digits.skip(digits.len() - 8)[7] == digits[digits.len() - 1]);
        }
    }
    assert(text::trim_back(stem, ".parquet"@) == digits);
}

/// Different data files have different names.
pub proof fn law_file_names_differ(f: usize, g: usize)
    requires
        f != g,
    ensures
        file_name_text(f as nat) != file_name_text(g as nat),
{
    law_file_id_reads_file_name(f, Seq::empty());
    law_file_id_reads_file_name(g, Seq::empty());
}

/// The file number of a path is the number that remains of its last part once every
/// copy of `part-` in front and of `.parquet` behind is left out, and every path can be
/// taken apart so: `front` ends in a slash or is empty, and no slash follows it.
pub proof fn law_file_id_reads_the_middle(
    front: Seq<char>,
    before: nat,
    middle: Seq<char>,
    behind: nat,
)
    requires
        front.len() == 0 || front.last() == '/',
        forall|k: int| 0 <= k < middle.len() ==> #[trigger] middle[k] != '/',
        !"part-"@.is_prefix_of(middle + text::copies(".parquet"@, behind)),
        !".parquet"@.is_suffix_of(middle),
    ensures
        id_in(
            front + (text::copies("part-"@, before) + (middle + text::copies(".parquet"@, behind))),
        ) == text::number(middle),
{
    use_literals();
    let stem = middle + text::copies(".parquet"@, behind);
    let name = text::copies("part-"@, before) + stem;
    text::lemma_copies_lack("part-"@, before, '/');
    text::lemma_copies_lack(".parquet"@, behind, '/');
    assert forall|k: int| 0 <= k < name.len() implies #[trigger] name[k] != '/' by {
        let a = text::copies("part-"@, before);
        if k < a.len() {
            assert(name[k] == a[k]);
        } else if k < a.len() + middle.len() {
            assert(name[k] == middle[k - a.len()]);
        } else {
            assert(name[k] == text::copies(".parquet"@, behind)[k - a.len() - middle.len()]);
        }
    }
    text::lemma_after_last(front, name, '/');
    text::lemma_trim_front_copies("part-"@, before, stem);
    text::lemma_trim_back_copies(".parquet"@, behind, middle);
}

/// Every path can be taken apart as [`law_file_id_reads_the_middle`] asks, so that law
/// settles the file number of every path.
pub proof fn law_paths_come_apart(path: Seq<char>) -> (parts: (Seq<char>, nat, Seq<char>, nat))
    ensures
        ({
            let (front, before, middle, behind) = parts;
            &&& path == front + (text::copies("part-"@, before) + (middle + text::copies(
                ".parquet"@,
                behind,
            )))
            &&& front.len() == 0 || front.last() == '/'
            &&& forall|k: int| 0 <= k < middle.len() ==> #[trigger] middle[k] != '/'
            &&& !"part-"@.is_prefix_of(middle + text::copies(".parquet"@, behind))
            &&& !".parquet"@.is_suffix_of(middle)
        }),
{
    use_literals();
    let name = text::after_last(path, '/');
    text::law_after_last_is_the_end(path, '/');
    let at = path.len() - name.len();
    let front = path.take(at);
    let stem = text::trim_front(name, "part-"@);
    let before = text::law_trim_front_takes_all_copies(name, "part-"@);
    let middle = text::trim_back(stem, ".parquet"@);
    let behind = text::law_trim_back_takes_all_copies(stem, ".parquet"@);
    assert(path =~= front + name);
    if at > 0 {
        assert(front.last() == path[at - 1]);
    }
    let skipped = text::copies("part-"@, before).len();
    assert forall|k: int| 0 <= k < middle.len() implies #[trigger] middle[k] != '/' by {
        assert(name[skipped + k] == stem[k]);
        assert(stem[k] == middle[k]);
    }
    (front, before, middle, behind)
}

/// The name of a data file is its number in decimal, filled up with zeros to four
/// digits and not cut, between `part-` and `.parquet`.
pub proof fn law_file_names_hold_the_number(f: nat)
    ensures
        ({
            let name = file_name_text(f);
            let digits = text::decimal(f);
            let width = if digits.len() < 4 {
                4int
            } else {
                digits.len() as int
            };
            &&& name.len() == width + 13
            &&& name.take(5) == "part-"@
            &&& name.skip(width + 5) == ".parquet"@
            &&& name.subrange(width + 5 - digits.len(), width + 5) == digits
            &&& forall|k: int| 5 <= k < width + 5 - digits.len() ==> #[trigger] name[k] == '0'
        }),
{
    use_literals();
    let name = file_name_text(f);
    let digits = text::decimal(f);
    let width = if digits.len() < 4 {
        4int
    } else {
        digits.len() as int
    };
    let padded = text::pad_left(digits, 4, '0');
    assert(name.take(5) =~= "part-"@);
    assert(name.skip(width + 5) =~= ".parquet"@);
    assert(name.subrange(width + 5 - digits.len(), width + 5) =~= digits);
    assert forall|k: int| 5 <= k < width + 5 - digits.len() implies #[trigger] name[k] == '0' by {
        assert(name[k] == padded[k - 5]);
    }
}

} // verus!
