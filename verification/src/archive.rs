//! Archive layout rules.
//!
//! A content archive usually wraps everything in a single root folder.
//! Extraction strips that folder, so files land at their relative paths
//! under the destination: the root folder is the first segment of the
//! first entry's name (see [`crate::text::first_segment_str`]), and each
//! entry is unpacked to [`entry_output_rel`] of its name.  Reading the
//! archive and writing the files is the I/O layer's work.

use vstd::prelude::*;

verus! {

/// Where an archive entry lands, relative to the destination: its name
/// with the archive's root folder stripped when it sits inside it, its
/// name unchanged otherwise.
pub open spec fn entry_output_of(entry_name: Seq<char>, root: Seq<char>) -> Seq<char> {
    if root.len() + 1 as int <= entry_name.len() && entry_name.subrange(0, root.len() + 1 as int) == root
        + seq!['/'] {
        entry_name.skip(root.len() + 1 as int)
    } else {
        entry_name
    }
}

/// The relative output path for one archive entry.
pub fn entry_output_rel(entry_name: &str, root: &str) -> (r: String)
    ensures
        r@ == entry_output_of(entry_name@, root@),
{
    let e_len = entry_name.unicode_len();
    let r_len = root.unicode_len();
    if r_len >= e_len {
        proof {
            assert(!(root@.len() + 1 as int <= entry_name@.len()));
        }
        return entry_name.to_owned();
    }
    let mut i: usize = 0;
    while i < r_len
        invariant
            e_len == entry_name@.len(),
            r_len == root@.len(),
            r_len < e_len,
            i <= r_len,
            forall|j: int| 0 <= j < i ==> entry_name@[j] == root@[j],
        decreases r_len - i,
    {
        if entry_name.get_char(i) != root.get_char(i) {
            proof {
                assert(entry_name@.subrange(0, root@.len() + 1 as int)[i as int] == entry_name@[i as int]);
                assert((root@ + seq!['/'])[i as int] == root@[i as int]);
            }
            return entry_name.to_owned();
        }
        i = i + 1;
    }
    if entry_name.get_char(r_len) != '/' {
        proof {
            assert(entry_name@.subrange(0, root@.len() + 1 as int)[r_len as int]
                == entry_name@[r_len as int]);
            assert((root@ + seq!['/'])[r_len as int] == '/');
        }
        return entry_name.to_owned();
    }
    proof {
        assert(entry_name@.subrange(0, root@.len() + 1 as int) =~= root@ + seq!['/']);
        assert(entry_name@.subrange(r_len + 1, e_len as int) =~= entry_name@.skip(
            root@.len() + 1 as int,
        ));
    }
    entry_name.substring_char(r_len + 1, e_len).to_owned()
}

} // verus!
