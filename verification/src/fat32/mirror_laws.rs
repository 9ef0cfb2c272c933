//! What copying the first FAT over the second does.
use vstd::prelude::*;
use crate::bytes;
use crate::error::Error;
use super::model;
use super::model::FatState;

verus! {

/// What holds after sectors `done` and on of the second FAT have been overwritten with those of
/// the first.
pub open spec fn copied(st: FatState, z: FatState, done: int, total: int) -> bool {
    let from = model::fat_lba(st) * 512;
    let to = model::backup_lba(st) * 512;
    &&& z == (FatState { disk: z.disk, ..st })
    &&& z.disk.len() == st.disk.len()
    &&& forall|k: int|
        to + done * 512 <= k < to + total * 512 ==> #[trigger] z.disk[k] == st.disk[k - to + from]
    &&& forall|k: int|
        0 <= k < st.disk.len() && !(to + done * 512 <= k < to + total * 512)
            ==> #[trigger] z.disk[k] == st.disk[k]
}

#[verifier::spinoff_prover]
#[verifier::rlimit(40)]
proof fn lemma_mirrored(st: FatState, done: int, total: int)
    requires
        0 <= model::fat_lba(st),
        0 <= done <= total,
        total <= model::fat_size(st),
        model::backup_lba(st) >= model::fat_lba(st) + total,
        (model::backup_lba(st) + total) * 512 <= st.disk.len(),
    ensures
        crate::fat32::write::mirrored(st, done, total).1 == Ok::<(), Error>(()),
        copied(st, crate::fat32::write::mirrored(st, done, total).0, done, total),
    decreases total - done,
{
    if done < total {
        let take = if total - done < 64 {
            total - done
        } else {
            64
        };
        let from = model::fat_lba(st) * 512;
        let to = model::backup_lba(st) * 512;
        let b = model::read(st, model::fat_lba(st) + done, take)->Ok_0;
        assert(b.len() == take * 512);
        assert(b.take(b.len() as int) =~= b);
        let s = model::write(st, model::backup_lba(st) + done, b).0;
        assert(s.disk =~= bytes::splice(st.disk, to + done * 512, b));
        lemma_mirrored(s, done + take, total);
        let z = crate::fat32::write::mirrored(s, done + take, total).0;
        assert forall|k: int| to + done * 512 <= k < to + total * 512 implies #[trigger] z.disk[k]
            == st.disk[k - to + from] by {
            if k < to + (done + take) * 512 {
                assert(z.disk[k] == s.disk[k]);
                assert(s.disk[k] == b[k - to - done * 512]);
            } else {
                assert(s.disk[k - to + from] == st.disk[k - to + from]);
            }
        }
        assert forall|k: int|
            0 <= k < st.disk.len() && !(to + done * 512 <= k < to + total * 512) implies
            #[trigger] z.disk[k] == st.disk[k] by {
            assert(z.disk[k] == s.disk[k]);
            assert(s.disk[k] == st.disk[k]);
        }
    }
}

/// The second FAT becomes a copy of the whole first one, whatever the variant; nothing else
/// changes.
pub proof fn mirror_is_a_copy(st: FatState)
    requires
        model::valid(st),
        (model::backup_lba(st) + model::fat_size(st)) * 512 <= st.disk.len(),
    ensures
        crate::fat32::write::mirrored(st, 0, model::fat_size(st)).1 == Ok::<(), Error>(()),
        copied(
            st,
            crate::fat32::write::mirrored(st, 0, model::fat_size(st)).0,
            0,
            model::fat_size(st),
        ),
{
    lemma_mirrored(st, 0, model::fat_size(st));
}

} // verus!
