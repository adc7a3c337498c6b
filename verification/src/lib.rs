//! Consolidation of tabular documents: merging row grids from several files,
//! searching them with structured conditions, and re-targeting merged cell
//! regions after rows are cut.
//!
//! The crate works on decoded sheets only: a sheet is an ordered sequence of
//! rows, each an ordered sequence of cell strings. Decoding spreadsheet
//! binaries and encoding the results back are left to the callers.

use vstd::prelude::*;

use crate::search::Search;

pub mod error;
pub mod natural_order;
pub mod merge;
pub mod order;
pub mod reply;
pub mod search;
pub mod strings;

verus! {

/// A single file to be merged: its decoded row grid plus metadata.
#[derive(Clone, Debug)]
pub struct File {
    pub last_modified: String,
    pub name: String,
    /// The decoded sheet: the first row is the file's header row.
    pub rows: Vec<Vec<String>>,
    pub is_main: bool,
    /// Opaque identifier, assigned by the caller.
    pub id: u64,
}

impl File {
    /// Creates a new file record.
    pub fn new(
        name: String,
        last_modified: String,
        rows: Vec<Vec<String>>,
        is_main: bool,
        id: u64,
    ) -> (r: File)
        ensures
            r.name == name,
            r.last_modified == last_modified,
            r.rows == rows,
            r.is_main == is_main,
            r.id == id,
    {
        File { last_modified, rows, name, is_main, id }
    }
}

/// The list of search conditions of one request.
#[derive(Debug)]
pub struct Conditions {
    pub conditions: Vec<Search>,
}

/// A set of files to be merged, with the request's global directives.
pub struct FilesMap {
    pub files: Vec<File>,
    pub sort_by_date: bool,
    pub sort_by_file: bool,
    pub cutting_rows: usize,
}

/// The indices at which a cell equals `d`, from position `i` on.
pub open spec fn eq_indices_from(row: Seq<Seq<char>>, d: Seq<char>, i: int) -> Seq<int>
    decreases row.len() - i,
{
    if i < 0 || i >= row.len() {
        Seq::empty()
    } else {
        (if row[i] == d {
            seq![i]
        } else {
            Seq::empty()
        }) + eq_indices_from(row, d, i + 1)
    }
}

/// The indices of the cells that equal `dup`, in increasing order.
pub fn find_dup_indices(dup: &str, vec: &[&str]) -> (r: Vec<usize>)
    ensures
        r@.len() == eq_indices_from(vec.deep_view(), dup@, 0).len(),
        forall|p: int|
            0 <= p < r@.len() ==> r@[p] as int == eq_indices_from(vec.deep_view(), dup@, 0)[p],
{
    let ghost dv = vec.deep_view();
    let n = vec.len();
    let mut out: Vec<usize> = Vec::new();
    let ghost mut gm: Seq<int> = Seq::empty();
    let mut i: usize = 0;
    while i < n
        invariant
            n == dv.len(),
            dv == vec.deep_view(),
            i <= n,
            gm + eq_indices_from(dv, dup@, i as int) == eq_indices_from(dv, dup@, 0),
            gm.len() == out@.len(),
            forall|p: int| 0 <= p < gm.len() ==> gm[p] == out@[p] as int,
        decreases n - i,
    {
        proof {
            assert(dv[i as int] == vec@[i as int]@);
        }
        if crate::strings::str_eq_str(vec[i], dup) {
            out.push(i);
            proof {
                gm = gm.push(i as int);
            }
        }
        i += 1;
    }
    proof {
        assert(eq_indices_from(dv, dup@, n as int) == Seq::<int>::empty());
        assert(gm + Seq::<int>::empty() =~= gm);
    }
    out
}

/// The position of the last '.' in `s`, or -1 when there is none.
pub open spec fn last_dot(s: Seq<char>) -> int
    decreases s.len(),
{
    if s.len() == 0 {
        -1
    } else if s.last() == '.' {
        s.len() - 1
    } else {
        last_dot(s.drop_last())
    }
}

/// Everything after the last '.' of the filename, when it has one.
pub fn get_file_extension(filename: &str) -> (r: Option<&str>)
    ensures
        match r {
            Some(ext) => last_dot(filename@) >= 0 && ext@ == filename@.skip(last_dot(filename@) + 1),
            None => last_dot(filename@) == -1,
        },
{
    let n = filename.unicode_len();
    let mut k = n;
    proof {
        assert(filename@.take(n as int) =~= filename@);
    }
    while k > 0
        invariant
            n == filename@.len(),
            k <= n,
            last_dot(filename@) == last_dot(filename@.take(k as int)),
        decreases k,
    {
        let ghost prefix = filename@.take(k as int);
        proof {
            assert(prefix.last() == filename@[k - 1]);
            assert(prefix.drop_last() =~= filename@.take(k - 1));
        }
        let c = filename.get_char(k - 1);
        if c == '.' {
            proof {
                assert(last_dot(filename@) == k - 1);
            }
            return Some(filename.substring_char(k, n));
        }
        k -= 1;
    }
    proof {
        assert(filename@.take(0) =~= Seq::<char>::empty());
    }
    None
}

/// The filename without its extension: everything before the last '.', or
/// the whole name when there is no dot, or when the only dot leads the name.
pub open spec fn stem_of(s: Seq<char>) -> Seq<char> {
    if last_dot(s) <= 0 {
        s
    } else {
        s.take(last_dot(s))
    }
}

/// The filename without its extension.
pub fn file_stem(filename: &str) -> (r: String)
    ensures
        r@ == stem_of(filename@),
{
    let n = filename.unicode_len();
    let mut k = n;
    proof {
        assert(filename@.take(n as int) =~= filename@);
    }
    while k > 0
        invariant
            n == filename@.len(),
            k <= n,
            last_dot(filename@) == last_dot(filename@.take(k as int)),
        decreases k,
    {
        let ghost prefix = filename@.take(k as int);
        proof {
            assert(prefix.last() == filename@[k - 1]);
            assert(prefix.drop_last() =~= filename@.take(k - 1));
        }
        let c = filename.get_char(k - 1);
        if c == '.' {
            proof {
                assert(last_dot(filename@) == k - 1);
            }
            if k > 1 {
                let piece = filename.substring_char(0, k - 1);
                proof {
                    assert(piece@ =~= stem_of(filename@));
                }
                return piece.to_owned();
            } else {
                let whole = filename.substring_char(0, n);
                proof {
                    assert(whole@ =~= filename@);
                }
                return whole.to_owned();
            }
        }
        k -= 1;
    }
    proof {
        assert(filename@.take(0) =~= Seq::<char>::empty());
        assert(last_dot(filename@) == -1);
    }
    let whole = filename.substring_char(0, n);
    proof {
        assert(whole@ =~= filename@);
    }
    whole.to_owned()
}

} // verus!
