//! Roots of all-zero trees, made on demand.

use vstd::prelude::*;
use crate::model::{
    agrees, bump, extends, handles_of, resolved, sound, lemma_child_has_edge,
    lemma_extends_transitive,
};
use crate::ledger::{handles_kept, lemma_undone_still, undone};
use crate::raw::lemma_graft_undone;
use crate::ledger::{ledger, lemma_ledger_chain, lemma_ledger_chain3, lemma_ledger_still};
use crate::store::{
    WriteBackend, lemma_inserted, lemma_inserted_ledger, lemma_released_ledger, released_light, wf,
};
use crate::tree::{
    all_zero, collision, empty_root, lemma_all_zero_parent, lemma_collision_witness, lemma_key_of,
};
use crate::value::{BackendError, Error, Value};

verus! {

/// The root of the all-zero tree of the given depth, whose nodes the store
/// holds afterwards. Where `depth` is positive the caller gets one handle
/// on the result.
#[verifier::rlimit(40)]
pub fn empty_at<DB: WriteBackend>(db: &mut DB, depth: u32) -> (r: Result<Value, Error>)
    requires
        wf(*old(db)),
    ensures
        wf(*final(db)),
        match r {
            Ok(root) => {
                &&& root == empty_root(depth as nat)
                &&& depth == 0 ==> final(db)@ == old(db)@
                &&& depth > 0 ==> root is Intermediate && handles_of(
                    final(db)@,
                    root->Intermediate_0@,
                ) >= bump(handles_of(old(db)@, root->Intermediate_0@) as u64)
                &&& resolved(final(db)@, root)
                &&& extends(old(db)@, final(db)@)
                &&& handles_kept(old(db)@, final(db)@)
                &&& ledger(old(db)@, final(db)@, Value::zero(), root)
                &&& all_zero(final(db)@, root, depth as nat)
            },
            Err(e) => e == Error::Backend(BackendError::Collision) && collision() && undone(
                old(db)@,
                final(db)@,
            ) && agrees(old(db)@, final(db)@),
        },
{
    let mut current = Value::zero();
    let mut level: u32 = 0;
    proof {
        assert(handles_kept(db@, db@));
        assert forall|p: Seq<bool>| p.len() == 0 implies #[trigger] crate::tree::walk(
            db@,
            current,
            p,
        ) == crate::tree::Lookup::Found(Value::zero()) by {}
        lemma_ledger_still(db@, Value::zero(), current);
    }
    while level < depth
        invariant
            wf(*db),
            sound(old(db)@),
            level <= depth,
            current == empty_root(level as nat),
            level == 0 ==> db@ == old(db)@,
            level > 0 ==> current is Intermediate && handles_of(db@, current->Intermediate_0@)
                >= bump(handles_of(old(db)@, current->Intermediate_0@) as u64),
            resolved(db@, current),
            extends(old(db)@, db@),
            handles_kept(old(db)@, db@),
            ledger(old(db)@, db@, Value::zero(), current),
            all_zero(db@, current, level as nat),
        decreases depth - level,
    {
        let ghost m1 = db@;
        let key = match db.insert(current, current) {
            Ok(key) => key,
            Err(e) => {
                proof {
                    lemma_collision_witness(m1, current, current);
                }
                if let Value::Intermediate(ck) = current {
                    let given = db.unrooted_decref(&ck);
                    assert(given is Ok);
                    proof {
                        lemma_graft_undone(old(db)@, m1, db@, ck);
                    }
                } else {
                    proof {
                        lemma_undone_still(m1);
                    }
                }
                return Err(Error::Backend(BackendError::Collision));
            },
        };
        let ghost m2 = db@;
        proof {
            lemma_inserted(m1, current, current);
            lemma_key_of(key);
        }
        if let Value::Intermediate(ck) = current {
            proof {
                assert(handles_of(m1, ck@) >= 1);
                assert(handles_of(m2, ck@) >= 1) by {
                    if ck@ != key@ {
                        assert(handles_of(m2, ck@) == handles_of(m1, ck@));
                    }
                }
                assert(m2[key@].child(false) == current);
                lemma_child_has_edge(m2, key@, false, ck@);
            }
            let given = db.unrooted_decref(&ck);
            assert(given is Ok);
            assert(db@ == released_light(m2, ck@));
        }
        proof {
            let m3 = db@;
            let m0 = old(db)@;
            assert(extends(m1, m3)) by {
                assert forall|k: Seq<u8>| #[trigger] m1.contains_key(k) implies m3.contains_key(k)
                    && m3[k].left == m1[k].left && m3[k].right == m1[k].right by {
                    assert(m2.contains_key(k));
                }
            }
            lemma_extends_transitive(m0, m1, m3);
            assert(handles_kept(m0, m3)) by {
                assert forall|k: Seq<u8>| #[trigger] handles_of(m3, k) >= handles_of(m0, k) by {
                    assert(handles_of(m1, k) >= handles_of(m0, k));
                    if k != key@ {
                        assert(handles_of(m2, k) == handles_of(m1, k));
                    }
                }
            }
            assert(handles_of(m3, key@) >= bump(handles_of(m0, key@) as u64)) by {
                assert(handles_of(m1, key@) >= handles_of(m0, key@));
            }
            lemma_all_zero_parent(m1, m3, current, key, level as nat);
            let zero = Value::zero();
            let new = Value::Intermediate(key);
            lemma_inserted_ledger(m1, current, current, key);
            if let Value::Intermediate(ck) = current {
                lemma_released_ledger(m2, m3, ck);
                lemma_ledger_chain3(m0, m1, m2, m3, zero, current, zero, new, current, zero, zero, new);
            } else {
                lemma_ledger_chain(m0, m1, m2, zero, current, zero, new, zero, new);
            }
        }
        current = Value::Intermediate(key);
        level = level + 1;
    }
    Ok(current)
}

} // verus!
