//! Laws of the store's operations.
//!
//! The operations of [`crate::store::FlowStore`] are specified over a
//! map view from filename to file content: a write inserts under the
//! name's filename, a delete removes it, a read looks it up, and a
//! listing holds exactly the names whose filename is a key.  The
//! proofs here state, in those same terms, the guarantees the store
//! gives across operations: round trips, overwrites, idempotent
//! deletes, and the invisibility of foreign files to listings.

use vstd::prelude::*;

use crate::naming::flow_key;
use crate::naming::has_flow_ext;
use crate::naming::lemma_key_has_ext;

verus! {

/// Writing a flow and then reading the same name returns exactly the
/// payload written.
pub proof fn lemma_write_read_round_trip(m: Map<Seq<char>, Seq<char>>, n: Seq<char>, d: Seq<char>)
    ensures
        m.insert(flow_key(n), d).contains_key(flow_key(n)),
        m.insert(flow_key(n), d)[flow_key(n)] == d,
{
}

/// Writing twice under the same name keeps only the last payload: the
/// first write leaves no trace, and a read afterwards returns the
/// second payload.
pub proof fn lemma_overwrite(
    m: Map<Seq<char>, Seq<char>>,
    n: Seq<char>,
    d1: Seq<char>,
    d2: Seq<char>,
)
    ensures
        m.insert(flow_key(n), d1).insert(flow_key(n), d2) == m.insert(flow_key(n), d2),
        m.insert(flow_key(n), d1).insert(flow_key(n), d2)[flow_key(n)] == d2,
{
    assert(m.insert(flow_key(n), d1).insert(flow_key(n), d2) =~= m.insert(flow_key(n), d2));
}

/// Deleting a name is idempotent: deleting it a second time changes
/// nothing, so a delete never depends on the name being stored.
pub proof fn lemma_delete_idempotent(m: Map<Seq<char>, Seq<char>>, n: Seq<char>)
    ensures
        m.remove(flow_key(n)).remove(flow_key(n)) == m.remove(flow_key(n)),
{
    assert(m.remove(flow_key(n)).remove(flow_key(n)) =~= m.remove(flow_key(n)));
}

/// After a delete, no flow is stored under the name: a read fails and
/// a listing does not hold the name.
pub proof fn lemma_delete_then_absent(m: Map<Seq<char>, Seq<char>>, n: Seq<char>)
    ensures
        !m.remove(flow_key(n)).contains_key(flow_key(n)),
{
}

/// A file whose name does not follow the naming convention never
/// stands for a stored flow: placing it in the root leaves every
/// flow exactly as it was, so no listing ever shows it.
pub proof fn lemma_foreign_file_not_a_flow(m: Map<Seq<char>, Seq<char>>, f: Seq<char>, c: Seq<char>)
    requires
        !has_flow_ext(f),
    ensures
        forall|n: Seq<char>|
            m.insert(f, c).contains_key(#[trigger] flow_key(n)) <==> m.contains_key(flow_key(n)),
{
    assert forall|n: Seq<char>|
        m.insert(f, c).contains_key(#[trigger] flow_key(n)) <==> m.contains_key(flow_key(n)) by {
        lemma_key_has_ext(n);
    }
}

} // verus!
