use vstd::prelude::*;
use vstd::string::*;
use crate::error::Error;
use crate::path::{last_segment, segments};

verus! {

/// Whether a segment can name a stored copy: `.` and `..` cannot.
pub open spec fn nameable(segment: Seq<char>) -> bool {
    segment != seq!['.'] && segment != seq!['.', '.']
}

/// A segment without its leading dot, if it has one.
pub open spec fn strip_dot(segment: Seq<char>) -> Seq<char> {
    if segment.len() > 0 && segment[0] == '.' {
        segment.skip(1)
    } else {
        segment
    }
}

/// The name under which `path` is kept in storage: its last segment without
/// one leading dot. The root, and a path that ends in `.` or `..`, has none.
pub open spec fn storage_name(path: Seq<char>) -> Option<Seq<char>> {
    let parts = segments(path);
    if parts.len() > 0 && nameable(parts.last()) {
        Some(strip_dot(parts.last()))
    } else {
        None
    }
}

/// The name under which `path` is kept in storage, so that `.bashrc` is kept
/// as `bashrc`.
pub fn get_name(path: &str) -> (r: Result<String, Error>)
    ensures
        match storage_name(path@) {
            Some(name) => r matches Ok(s) && s@ == name,
            None => r == Err::<String, Error>(Error::PathComponentInvalid),
        },
{
    match last_segment(path) {
        None => Err(Error::PathComponentInvalid),
        Some((a, b)) => {
            let ghost segment = path@.subrange(a as int, b as int);
            let first = path.get_char(a);
            assert(segment[0] == first);
            if first == '.' {
                if b - a == 1 {
                    assert(segment =~= seq!['.']);
                    return Err(Error::PathComponentInvalid);
                }
                let second = path.get_char(a + 1);
                assert(segment[1] == second);
                if b - a == 2 && second == '.' {
                    assert(segment =~= seq!['.', '.']);
                    return Err(Error::PathComponentInvalid);
                }
                assert(segment != seq!['.', '.']) by {
                    if segment == seq!['.', '.'] {
                        assert(segment.len() == 2);
                        assert(seq!['.', '.'][1] == '.');
                    }
                }
                assert(segment != seq!['.']) by {
                    if segment == seq!['.'] {
                        assert(segment.len() == 1);
                    }
                }
                assert(path@.subrange(a + 1, b as int) =~= segment.skip(1));
                Ok(path.substring_char(a + 1, b).to_owned())
            } else {
                assert(segment != seq!['.']) by {
                    if segment == seq!['.'] {
                        assert(seq!['.'][0] == '.');
                    }
                }
                assert(segment != seq!['.', '.']) by {
                    if segment == seq!['.', '.'] {
                        assert(seq!['.', '.'][0] == '.');
                    }
                }
                Ok(path.substring_char(a, b).to_owned())
            }
        },
    }
}

/// Whether two directory trees hold the same contents. Every pair of trees is
/// reported as equal.
pub fn dir_contents_equal() -> (r: Result<bool, Error>)
    ensures
        r == Ok::<bool, Error>(true),
{
    Ok(true)
}

} // verus!
