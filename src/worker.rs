//! What a worker does with its band: trade boundary rows with its
//! neighbours and step, generation after generation; and how the finished
//! bands, tagged with their indices, are put back in row order.
use crate::comm::DuplexChannel;
use crate::error::GridError;
use crate::grid::{boards, fits, same_columns, GameState};
use crate::life::{generation, life, step_inner, surround};
use vstd::prelude::*;

verus! {

/// The border line a band steps with: the middle of the row a neighbour
/// sent, or the line already there when no neighbour sent one.
pub open spec fn incoming(row: Option<Vec<u8>>, current: Seq<u8>) -> Seq<u8> {
    match row {
        Some(v) => v@.subrange(1, v@.len() - 1),
        None => current,
    }
}

/// A row handed over has the band's width with its border, or is absent.
pub open spec fn fitting(row: Option<Vec<u8>>, columns: nat) -> bool {
    match row {
        Some(v) => v@.len() == columns + 2,
        None => true,
    }
}

/// A row sent as `read_top` or `read_bottom` gives it, once received, is
/// exactly the sender's boundary row.
pub proof fn lemma_received_row(row: Seq<u8>, sent: Vec<u8>, current: Seq<u8>)
    requires
        sent@ == seq![0u8] + row + seq![0u8],
    ensures
        incoming(Some(sent), current) == row,
        fitting(Some(sent), row.len()),
{
    assert(sent@.subrange(1, sent@.len() - 1) =~= row);
}

/// One generation of a band after its exchange: stores the rows received
/// from above and below (if any) as its border lines, then steps. Fails,
/// changing nothing, when a received row has the wrong length.
pub fn advance_band(
    state: &mut GameState,
    from_above: Option<Vec<u8>>,
    from_below: Option<Vec<u8>>,
) -> (r: Result<(), GridError>)
    requires
        old(state).wf(),
    ensures
        final(state).wf(),
        !(fitting(from_above, old(state)@.columns) && fitting(from_below, old(state)@.columns))
            ==> r == Err::<(), GridError>(GridError::InvalidRowLength) && *final(state) == *old(
            state,
        ),
        fitting(from_above, old(state)@.columns) && fitting(from_below, old(state)@.columns) ==> {
            &&& r == Ok::<(), GridError>(())
            &&& final(state)@.rows == old(state)@.rows
            &&& final(state)@.columns == old(state)@.columns
            &&& final(state)@.board() == step_inner(
                surround(
                    old(state)@.board(),
                    incoming(from_above, old(state)@.top_halo()),
                    incoming(from_below, old(state)@.bottom_halo()),
                ),
            )
            &&& final(state)@.clear_halo()
        },
{
    let columns = state.columns();
    proof {
        state.lemma_dims_fit();
    }
    let above_fits = match &from_above {
        Some(v) => v.len() == columns + 2,
        None => true,
    };
    let below_fits = match &from_below {
        Some(v) => v.len() == columns + 2,
        None => true,
    };
    if !above_fits || !below_fits {
        return Err(GridError::InvalidRowLength);
    }
    let ghost start = *state;
    proof {
        start.lemma_shape();
    }
    match &from_above {
        Some(v) => {
            let _ = state.set_top(v.as_slice());
        },
        None => {},
    }
    match &from_below {
        Some(v) => {
            let _ = state.set_bottom(v.as_slice());
        },
        None => {},
    }
    proof {
        state.lemma_lines();
        state.lemma_shape();
        assert(state@.board() =~= start@.board());
    }
    state.progress(1);
    Ok(())
}

/// A worker's run: `steps` times, send the band's first row up and its last
/// row down, receive a row from each neighbour present, and advance the
/// band one generation with them. Any failed exchange ends the run.
pub fn run_worker(state: GameState, link: &DuplexChannel<Vec<u8>>, steps: usize) -> (r: Result<
    GameState,
    GridError,
>)
    requires
        state.wf(),
        link.wf(),
    ensures
        steps == 0 ==> r == Ok::<GameState, GridError>(state),
        r matches Ok(g) ==> {
            &&& g.wf()
            &&& g@.rows == state@.rows
            &&& g@.columns == state@.columns
            &&& steps > 0 ==> g@.clear_halo()
        },
        r is Err ==> r == Err::<GameState, GridError>(GridError::WorkerFailure) || r == Err::<
            GameState,
            GridError,
        >(GridError::InvalidRowLength),
        !link.has_top() && !link.has_bottom() && state@.clear_halo() ==> (r matches Ok(g)
            && g@.board() == life(state@.board(), state@.columns, steps as nat)),
{
    let ghost start = state;
    let ghost w = state@.columns;
    let ghost isolated = !link.has_top() && !link.has_bottom() && state@.clear_halo();
    let mut state = state;
    let mut i: usize = 0;
    if steps == 0 {
        return Ok(state);
    }
    while i < steps
        invariant
            0 <= i <= steps,
            state.wf(),
            link.wf(),
            state@.rows == start@.rows,
            state@.columns == w,
            w == start@.columns,
            i > 0 ==> state@.clear_halo(),
            i == 0 ==> state == start,
            isolated == (!link.has_top() && !link.has_bottom() && start@.clear_halo()),
            isolated ==> state@.clear_halo() && state@.board() == life(start@.board(), w, i as nat),
        decreases steps - i,
    {
        match link.send_top(state.read_top()) {
            Ok(()) => {},
            Err(e) => {
                return Err(e);
            },
        }
        match link.send_bottom(state.read_bottom()) {
            Ok(()) => {},
            Err(e) => {
                return Err(e);
            },
        }
        let from_above = match link.receive_top() {
            Ok(v) => v,
            Err(e) => {
                return Err(e);
            },
        };
        let from_below = match link.receive_bottom() {
            Ok(v) => v,
            Err(e) => {
                return Err(e);
            },
        };
        let ghost before = state;
        match advance_band(&mut state, from_above, from_below) {
            Ok(()) => {},
            Err(e) => {
                return Err(e);
            },
        }
        proof {
            if isolated {
                before.lemma_shape();
                assert(life(start@.board(), w, (i + 1) as nat) == generation(
                    life(start@.board(), w, i as nat),
                    w,
                ));
            }
        }
        i += 1;
    }
    Ok(state)
}

/// `order` lists, for each index `k` below the number of results, the band
/// of a result tagged `k`.
pub open spec fn in_index_order(results: Seq<(usize, GameState)>, order: Seq<GameState>) -> bool {
    &&& order.len() == results.len()
    &&& forall|k: int| 0 <= k < order.len() ==> #[trigger] tagged(results, k, order[k])
}

/// Some result is `band` tagged `k`.
pub open spec fn tagged(results: Seq<(usize, GameState)>, k: int, band: GameState) -> bool {
    exists|j: int| 0 <= j < results.len() && results[j].0 == k && results[j].1 == band
}

/// `item` is one of the results.
pub open spec fn one_of(results: Seq<(usize, GameState)>, item: (usize, GameState)) -> bool {
    exists|j: int| 0 <= j < results.len() && results[j] == item
}

/// Some result is tagged `k`.
pub open spec fn has_index(results: Seq<(usize, GameState)>, k: int) -> bool {
    exists|j: int| 0 <= j < results.len() && results[j].0 == k
}

/// Every index below the number of results tags one of them.
pub open spec fn complete(results: Seq<(usize, GameState)>) -> bool {
    forall|k: int| 0 <= k < results.len() ==> #[trigger] has_index(results, k)
}

/// What merging `parts` in order gives, as `GameState::from_parts` states it.
pub open spec fn merge_outcome(parts: Seq<GameState>, r: Result<GameState, GridError>) -> bool {
    let flat = boards(parts).flatten();
    &&& parts.len() == 0 ==> r == Err::<GameState, GridError>(GridError::EmptyPartList)
    &&& parts.len() > 0 && !same_columns(parts) ==> r == Err::<GameState, GridError>(
        GridError::ColumnMismatch,
    )
    &&& parts.len() > 0 && same_columns(parts) && !fits(flat.len() as int, parts[0]@.columns as int)
        ==> r == Err::<GameState, GridError>(GridError::InvalidDimensions)
    &&& parts.len() > 0 && same_columns(parts) && fits(flat.len() as int, parts[0]@.columns as int)
        ==> (r matches Ok(g) && g.wf() && g@.rows == flat.len() && g@.columns == parts[0]@.columns
        && g@.board() == flat && g@.clear_halo())
}

/// Puts finished bands, each tagged with its index, back in index order,
/// whatever order they came in, and merges them. Fails with `WorkerFailure`
/// when some index is missing.
pub fn assemble(results: Vec<(usize, GameState)>) -> (r: Result<GameState, GridError>)
    requires
        forall|j: int| 0 <= j < results@.len() ==> (#[trigger] results@[j]).1.wf(),
    ensures
        !complete(results@) ==> r == Err::<GameState, GridError>(GridError::WorkerFailure),
        complete(results@) ==> exists|order: Seq<GameState>|
            in_index_order(results@, order) && merge_outcome(order, r),
{
    let n = results.len();
    let ghost all = results@;
    let mut remaining = results;
    let mut parts: Vec<GameState> = Vec::new();
    assert forall|t: int| 0 <= t < remaining@.len() implies #[trigger] one_of(all, remaining@[t]) by {
        assert(all[t] == remaining@[t]);
    }
    let mut k: usize = 0;
    while k < n
        invariant
            0 <= k <= n,
            n == all.len(),
            all == results@,
            parts@.len() == k,
            forall|j: int| 0 <= j < all.len() ==> (#[trigger] all[j]).1.wf(),
            forall|t: int| 0 <= t < remaining@.len() ==> #[trigger] one_of(all, remaining@[t]),
            forall|q: int| 0 <= q < k ==> #[trigger] tagged(all, q, parts@[q]),
            complete(all) ==> forall|q: int| k <= q < n ==> #[trigger] has_index(remaining@, q),
            forall|q: int| 0 <= q < k ==> #[trigger] has_index(all, q),
        decreases n - k,
    {
        let mut found: usize = remaining.len();
        let mut t: usize = 0;
        while t < remaining.len()
            invariant
                0 <= t <= remaining@.len(),
                found == remaining@.len() || (found < t && remaining@[found as int].0 == k),
                found == remaining@.len() ==> forall|s: int| 0 <= s < t ==> #[trigger] remaining@[s].0 != k,
            decreases remaining@.len() - t,
        {
            if found == remaining.len() && remaining[t].0 == k {
                found = t;
            }
            t += 1;
        }
        if found == remaining.len() {
            proof {
                if complete(all) {
                    assert(has_index(remaining@, k as int));
                    let t = choose|t: int| 0 <= t < remaining@.len() && remaining@[t].0 == k;
                    assert(remaining@[t].0 != k);
                }
                assert(!complete(all));
            }
            return Err(GridError::WorkerFailure);
        }
        let ghost before = remaining@;
        let (_, band) = remaining.remove(found);
        proof {
            assert(one_of(all, before[found as int]));
            let j = choose|j: int| 0 <= j < all.len() && all[j] == before[found as int];
            assert(all[j].0 == k);
            assert(has_index(all, k as int));
            assert(tagged(all, k as int, band));
            assert forall|t2: int| 0 <= t2 < remaining@.len() implies #[trigger] one_of(all, remaining@[t2]) by {
                if t2 < found {
                    assert(remaining@[t2] == before[t2]);
                    assert(one_of(all, before[t2]));
                } else {
                    assert(remaining@[t2] == before[t2 + 1]);
                    assert(one_of(all, before[t2 + 1]));
                }
            }
            if complete(all) {
                assert forall|q: int| k + 1 <= q < n implies #[trigger] has_index(remaining@, q) by {
                    assert(has_index(before, q));
                    let t1 = choose|t1: int| 0 <= t1 < before.len() && before[t1].0 == q;
                    if t1 < found {
                        assert(remaining@[t1] == before[t1]);
                    } else {
                        assert(t1 != found);
                        assert(remaining@[t1 - 1] == before[t1]);
                    }
                }
            }
        }
        parts.push(band);
        proof {
            assert forall|q: int| 0 <= q < k + 1 implies #[trigger] tagged(all, q, parts@[q]) by {
                if q < k {
                    assert(parts@[q] == parts@.drop_last()[q]);
                }
            }
        }
        k += 1;
    }
    proof {
        assert(complete(all));
        assert(in_index_order(all, parts@));
        assert forall|q: int| 0 <= q < parts@.len() implies (#[trigger] parts@[q]).wf() by {
            assert(tagged(all, q, parts@[q]));
            let j = choose|j: int| 0 <= j < all.len() && all[j].0 == q && all[j].1 == parts@[q];
        }
    }
    let r = GameState::from_parts(&parts);
    assert(merge_outcome(parts@, r));
    r
}

} // verus!
