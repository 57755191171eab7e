//! Small helpers for file names and byte strings.

use vstd::prelude::*;

verus! {

/// The index of the last `.` in `name`, or `-1` if there is none.
pub open spec fn spec_last_dot(name: Seq<u8>) -> int
    decreases name.len(),
{
    if name.len() == 0 {
        -1
    } else if name.last() == 46 {
        name.len() - 1
    } else {
        spec_last_dot(name.drop_last())
    }
}

/// What `spec_last_dot` finds: the largest index bearing a `.`, or `-1`
/// when no byte is one.
pub proof fn lemma_last_dot(name: Seq<u8>)
    ensures
        spec_last_dot(name) >= -1,
        spec_last_dot(name) == -1 ==> forall|i: int| 0 <= i < name.len() ==> name[i] != 46,
        spec_last_dot(name) >= 0 ==> spec_last_dot(name) < name.len() && name[spec_last_dot(name)]
            == 46 && forall|i: int| spec_last_dot(name) < i < name.len() ==> name[i] != 46,
    decreases name.len(),
{
    if name.len() == 0 {
    } else if name.last() == 46 {
    } else {
        let dl = name.drop_last();
        lemma_last_dot(dl);
        assert(spec_last_dot(name) == spec_last_dot(dl));
        if spec_last_dot(name) == -1 {
            assert forall|i: int| 0 <= i < name.len() implies name[i] != 46 by {
                if i < name.len() - 1 {
                    assert(dl[i] != 46);
                }
            }
        } else {
            let d = spec_last_dot(dl);
            assert(d >= 0);
            assert(d < dl.len() && dl[d] == 46);
            assert(name[d] == dl[d]);
            assert forall|i: int| d < i < name.len() implies name[i] != 46 by {
                if i < name.len() - 1 {
                    assert(dl[i] != 46);
                }
            }
        }
    }
}

/// `p` is a prefix of `s`.
pub open spec fn is_prefix_of(p: Seq<u8>, s: Seq<u8>) -> bool {
    p.len() <= s.len() && s.subrange(0, p.len() as int) == p
}

/// A file name passes the filter when it has an extension — the part after
/// its last `.` — equal to `ext`, and its stem — the part before — starts
/// with `prefix`. A name without a `.` is refused.
pub open spec fn spec_filter_file(name: Seq<u8>, prefix: Seq<u8>, ext: Seq<u8>) -> bool {
    let d = spec_last_dot(name);
    &&& d >= 0
    &&& is_prefix_of(prefix, name.subrange(0, d))
    &&& name.subrange(d + 1, name.len() as int) == ext
}

/// Whether the byte at each position of `a` starting at `a_from` matches
/// the corresponding byte of `b` starting at `b_from`, for `len` bytes.
fn range_eq(a: &Vec<u8>, a_from: usize, b: &Vec<u8>, b_from: usize, len: usize) -> (r: bool)
    requires
        a_from + len <= a@.len(),
        b_from + len <= b@.len(),
    ensures
        r == (a@.subrange(a_from as int, a_from + len) == b@.subrange(b_from as int, b_from + len)),
{
    let a_len = a.len();
    let b_len = b.len();
    let mut i: usize = 0;
    while i < len
        invariant
            i <= len,
            a_from + len <= a@.len(),
            b_from + len <= b@.len(),
            a@.len() == a_len,
            b@.len() == b_len,
            forall|j: int| 0 <= j < i ==> a@[a_from + j] == #[trigger] b@[b_from + j],
        decreases len - i,
    {
        if a[a_from + i] != b[b_from + i] {
            proof {
                assert(a@.subrange(a_from as int, a_from + len)[i as int] != b@.subrange(
                    b_from as int,
                    b_from + len,
                )[i as int]);
            }
            return false;
        }
        i = i + 1;
    }
    proof {
        assert forall|j: int| 0 <= j < len implies #[trigger] a@.subrange(
            a_from as int,
            a_from + len,
        )[j] == b@.subrange(b_from as int, b_from + len)[j] by {
            assert(a@[a_from + j] == b@[b_from + j]);
        }
        assert(a@.subrange(a_from as int, a_from + len) =~= b@.subrange(
            b_from as int,
            b_from + len,
        ));
    }
    true
}

/// Whether `file_path` names a file whose extension is `ext` and whose stem
/// starts with `prefix`; the extension is what follows the last `.`.
pub fn filter_file(file_path: &Vec<u8>, prefix: &Vec<u8>, ext: &Vec<u8>) -> (r: bool)
    ensures
        r == spec_filter_file(file_path@, prefix@, ext@),
{
    let n = file_path.len();
    let mut i: usize = n;
    while i > 0
        invariant
            i <= n,
            n == file_path@.len(),
            forall|j: int| i <= j < n ==> file_path@[j] != 46,
        decreases i,
    {
        if file_path[i - 1] == 46 {
            let d = i - 1;
            proof {
                lemma_last_dot(file_path@);
                assert(spec_last_dot(file_path@) == d as int) by {
                    let sd = spec_last_dot(file_path@);
                    assert(file_path@[d as int] == 46);
                    if sd == -1 {
                        assert(file_path@[d as int] != 46);
                    } else if sd < d as int {
                        assert(file_path@[d as int] != 46);
                    } else if sd > d as int {
                        assert(file_path@[sd] == 46);
                        assert(file_path@[sd] != 46);
                    }
                }
            }
            // stem check: prefix must fit and match the front of the stem
            if prefix.len() > d {
                return false;
            }
            let stem_ok = range_eq(prefix, 0, file_path, 0, prefix.len());
            proof {
                let stem = file_path@.subrange(0, d as int);
                assert(prefix@.subrange(0, prefix@.len() as int) =~= prefix@);
                assert(file_path@.subrange(0, prefix@.len() as int) =~= stem.subrange(
                    0,
                    prefix@.len() as int,
                ));
            }
            // extension check: what follows the dot must equal ext exactly
            if n - d - 1 != ext.len() {
                proof {
                    assert(file_path@.subrange(d + 1, n as int).len() != ext@.len());
                }
                return false;
            }
            let ext_ok = range_eq(ext, 0, file_path, d + 1, ext.len());
            proof {
                assert(ext@.subrange(0, ext@.len() as int) =~= ext@);
                assert(file_path@.subrange(d + 1 as int, d + 1 + ext@.len()) =~= file_path@
                    .subrange(d + 1, n as int));
            }
            return stem_ok && ext_ok;
        }
        i = i - 1;
    }
    proof {
        lemma_last_dot(file_path@);
        assert(spec_last_dot(file_path@) == -1) by {
            if spec_last_dot(file_path@) >= 0 {
                assert(file_path@[spec_last_dot(file_path@)] == 46);
            }
        }
    }
    false
}

/// Relies on `std::str::from_utf8`: renders the bytes as text when they are
/// valid UTF-8 and as a fixed placeholder otherwise. Used only for
/// human-readable output; nothing is assumed of the result.
#[verifier::external_body]
pub fn format_bytes_as_str(bytes: &[u8]) -> String {
    match std::str::from_utf8(bytes) {
        Ok(s) => s.to_string(),
        Err(_) => "[invalid UTF-8]".to_string(),
    }
}

} // verus!
