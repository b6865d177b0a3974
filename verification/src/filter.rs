use vstd::prelude::*;

use crate::store::DbError;
use crate::task::str_eq;
use crate::task::Task;
use crate::task::TaskKind;
use crate::task::TaskStatus;

verus! {

/// A predicate over one task field — either a status or a kind — used to
/// narrow list queries.
#[derive(Clone, Copy, Debug, PartialEq, Eq, Structural)]
pub enum Filter {
    Status(TaskStatus),
    Kind(TaskKind),
}

/// `i` is the first colon of `s`.
pub open spec fn is_first_colon(s: Seq<char>, i: int) -> bool {
    &&& 0 <= i < s.len()
    &&& s[i] == ':'
    &&& forall|j: int| 0 <= j < i ==> s[j] != ':'
}

/// `s` contains exactly one colon.
pub open spec fn has_single_colon(s: Seq<char>) -> bool {
    exists|i: int|
        #[trigger] is_first_colon(s, i) && forall|j: int| i < j < s.len() ==> s[j] != ':'
}

/// Index of the first colon of `s` (meaningful only when one exists).
pub open spec fn colon_idx(s: Seq<char>) -> int {
    choose|i: int| is_first_colon(s, i)
}

/// What `Filter::from_str` accepts: a single-colon string whose left part is
/// `status` or `kind` and whose right part names a status or kind.
pub open spec fn spec_parse_filter(s: Seq<char>) -> Option<Filter> {
    if has_single_colon(s) {
        let key = s.subrange(0, colon_idx(s));
        let val = s.subrange(colon_idx(s) + 1, s.len() as int);
        if key == "status"@ {
            match TaskStatus::spec_parse(val) {
                Some(st) => Some(Filter::Status(st)),
                None => None,
            }
        } else if key == "kind"@ {
            match TaskKind::spec_parse(val) {
                Some(k) => Some(Filter::Kind(k)),
                None => None,
            }
        } else {
            None
        }
    } else {
        None
    }
}

impl Filter {
    /// The task field the filter names has the value the filter carries.
    pub open spec fn spec_matches(self, t: Task) -> bool {
        match self {
            Filter::Status(st) => t.status == st,
            Filter::Kind(k) => t.kind == k,
        }
    }

    /// Decides whether `t` matches the filter.
    pub fn matches(&self, t: &Task) -> (r: bool)
        ensures
            r == self.spec_matches(*t),
    {
        match self {
            Filter::Status(st) => t.status == *st,
            Filter::Kind(k) => t.kind == *k,
        }
    }

    /// Parses `status:<name>` or `kind:<name>`. A string without exactly one
    /// colon, or with another left part, is rejected with `InvalidFilter`
    /// carrying the whole input; a bad right part is rejected with
    /// `InvalidStatus` or `InvalidKind` carrying that part.
    pub fn from_str(s: &str) -> (r: Result<Filter, DbError>)
        ensures
            match r {
                Ok(f) => spec_parse_filter(s@) == Some(f),
                Err(e) => spec_parse_filter(s@) is None && match e {
                    DbError::InvalidStatus(m) => has_single_colon(s@) && s@.subrange(
                        0,
                        colon_idx(s@),
                    ) == "status"@ && m@ == s@.subrange(colon_idx(s@) + 1, s@.len() as int),
                    DbError::InvalidKind(m) => has_single_colon(s@) && s@.subrange(
                        0,
                        colon_idx(s@),
                    ) == "kind"@ && m@ == s@.subrange(colon_idx(s@) + 1, s@.len() as int),
                    DbError::InvalidFilter(m) => m@ == s@ && (has_single_colon(s@)
                        ==> s@.subrange(0, colon_idx(s@)) != "status"@ && s@.subrange(
                        0,
                        colon_idx(s@),
                    ) != "kind"@),
                    _ => false,
                },
            },
    {
        let len = s.unicode_len();
        let mut first: usize = 0;
        let mut found = false;
        let mut single = true;
        let mut i: usize = 0;
        while i < len
            invariant
                i <= len,
                len == s@.len(),
                found ==> first < i,
                found ==> is_first_colon(s@, first as int),
                found ==> single == (forall|j: int| first < j < i ==> s@[j] != ':'),
                !found ==> single,
                !found ==> forall|j: int| 0 <= j < i ==> s@[j] != ':',
            decreases len - i,
        {
            let c = s.get_char(i);
            if c == ':' {
                if found {
                    single = false;
                } else {
                    found = true;
                    first = i;
                }
            }
            i += 1;
        }
        if !found || !single {
            proof {
                if has_single_colon(s@) {
                    let k = choose|k: int|
                        #[trigger] is_first_colon(s@, k) && forall|j: int|
                            k < j < s@.len() ==> s@[j] != ':';
                    if found {
                        assert(k == first as int);
                    } else {
                        assert(s@[k] == ':');
                    }
                }
            }
            return Err(DbError::InvalidFilter(s.to_owned()));
        }
        proof {
            assert(has_single_colon(s@));
            assert(colon_idx(s@) == first as int) by {
                assert(is_first_colon(s@, colon_idx(s@)));
            }
        }
        let key = s.substring_char(0, first);
        let val = s.substring_char(first + 1, len);
        if str_eq(key, "status") {
            match TaskStatus::from_str(val) {
                Ok(st) => Ok(Filter::Status(st)),
                Err(e) => Err(e),
            }
        } else if str_eq(key, "kind") {
            match TaskKind::from_str(val) {
                Ok(k) => Ok(Filter::Kind(k)),
                Err(e) => Err(e),
            }
        } else {
            Err(DbError::InvalidFilter(s.to_owned()))
        }
    }
}

} // verus!
