//! What the decisions of a session promise: a call is answered only from what is there, by what
//! can answer it, and within the memory that is left.
use vstd::prelude::*;

use crate::error::Error;
use crate::request::{Operation, Request};
use crate::routes::{additive, Reduction, SourceRoute};
use crate::session::{
    charged, has_retained, keeps, left_of, once, row_of, stands, without, Registered, Row, Session,
};
use crate::session_call::{
    call_effect, decision, Action, Facts, Measurement, DIRECT_RESERVE, INDEX_RESERVE, SCRATCH_RESERVE,
};

verus! {

/// A raster is measured only where it is open, and only by what is prepared of it and answers the
/// statistics: row blocks that hold them, a hierarchy that is there, or a cumulative field of
/// additive statistics over its own coordinate system. Exact extraction is just what was chosen.
pub proof fn a_raster_is_measured_by_what_answers_it(
    session: Session,
    r: Request,
    facts: Facts,
    m: Measurement,
)
    requires
        decision(session, Operation::Measure, r, facts) == Ok::<Action, Error>(Action::Measure(m)),
    ensures
        ({
            let s = session@;
            let id = r.text_of("source"@);
            &&& id is Some && keeps(s.sources, id->0)
            &&& m == Measurement::Exactextract <==> facts.exact
            &&& m == Measurement::Hierarchy ==> keeps(s.hierarchies, id->0) && !r.has("plan"@)
                && left_of(s) >= SCRATCH_RESERVE
            &&& m matches Measurement::Cumulative { full } ==> {
                &&& keeps(
                    if full {
                        s.cumulative_full
                    } else {
                        s.cumulative_blocked
                    },
                    id->0,
                )
                &&& !r.has("plan"@)
                &&& facts.statistics is Some
                &&& forall|i: int|
                    0 <= i < facts.statistics->0@.len() ==> (#[trigger] facts.statistics->0@[i])@
                        == "sum"@ || facts.statistics->0@[i]@ == "support"@
                        || facts.statistics->0@[i]@ == "mean"@
                &&& r.text_of("crs"@) == Some(facts.crs@)
                &&& left_of(s) >= SCRATCH_RESERVE
            }
            &&& m matches Measurement::Reduced { reduction, kept_plan, .. } ==> {
                &&& reduction == Reduction::RowBlocks ==> keeps(s.indexes, id->0) && facts.eligible
                    && r.flag_of("use_index"@) != Some(false)
                &&& kept_plan ==> r.text_of("plan"@) is Some && keeps(
                    s.plans,
                    r.text_of("plan"@)->0,
                ) && facts.plan_grid
                &&& !kept_plan ==> r.text_of("plan"@) is None && r.text_of("crs"@) is Some
            }
        }),
{
    if let Measurement::Cumulative { full } = m {
        assert forall|i: int| 0 <= i < facts.statistics->0@.len() implies (
        #[trigger] facts.statistics->0@[i])@ == "sum"@ || facts.statistics->0@[i]@ == "support"@
            || facts.statistics->0@[i]@ == "mean"@ by {
            assert(additive(facts.statistics->0@[i]@));
        }
    }
}

/// A query on a registered source is let through only where its reader is there and what its way
/// needs is left.
pub proof fn a_source_query_keeps_to_the_memory(
    session: Session,
    r: Request,
    facts: Facts,
    route: SourceRoute,
)
    requires
        decision(session, Operation::MeasureSource, r, facts) == Ok::<Action, Error>(
            Action::Source(route),
        ),
    ensures
        r.text_of("source"@) is Some && keeps(session@.readers, r.text_of("source"@)->0),
        r.text_of("crs"@) is Some,
        route == SourceRoute::Indexed ==> left_of(session@) >= facts.need + INDEX_RESERVE,
        route == SourceRoute::Direct ==> left_of(session@) >= DIRECT_RESERVE,
        route == SourceRoute::Exactextract <==> facts.exact,
{
}

/// What may still be taken is what the session has, without what it is charged with and what is
/// under way; where that is more than it has, nothing may be taken.
pub proof fn what_is_left_is_not_yet_charged(session: Session)
    requires
        session@.transient >= 0,
    ensures
        left_of(session@) >= 0,
        left_of(session@) > 0 ==> left_of(session@) + charged(session@) + session@.transient
            == session@.max,
        charged(session@) + session@.transient >= session@.max ==> left_of(session@) == 0,
{
}

/// Nothing is registered under a name that is taken, nor beyond the number that may be.
pub proof fn a_taken_name_is_not_registered_again(session: Session, r: Request, facts: Facts)
    ensures
        ({
            let s = session@;
            let id = r.text_of("id"@);
            &&& decision(session, Operation::RegisterSource, r, facts) is Ok ==> id is Some
                && !keeps(s.readers, id->0) && !keeps(s.sources, id->0) && s.readers.len() < 32
            &&& decision(session, Operation::Open, r, facts) is Ok ==> id is Some && !keeps(
                s.sources,
                id->0,
            ) && s.sources.len() < 128
            &&& decision(session, Operation::StartJob, r, facts) is Ok ==> id is Some && !keeps(
                s.jobs,
                id->0,
            ) && !keeps(s.exactextract_jobs, id->0) && s.jobs.len() + s.exactextract_jobs.len() < 8
            &&& decision(session, Operation::RegisterIndex, r, facts) is Ok ==> id is Some
                && !has_retained(s, id->0) && s.retained.len() < 16
            &&& decision(session, Operation::Compile, r, facts) == Ok::<Action, Error>(
                Action::Plan,
            ) ==> id is Some && !keeps(s.plans, id->0) && s.plans.len() < 128
        }),
{
}

/// What is not there is neither asked about, nor read, nor closed.
pub proof fn only_what_is_there_is_closed(session: Session, r: Request, facts: Facts)
    ensures
        ({
            let s = session@;
            let source = r.text_of("source"@);
            &&& decision(session, Operation::CloseSource, r, facts) is Ok <==> source is Some
                && keeps(s.readers, source->0)
            &&& decision(session, Operation::SourceInfo, r, facts) is Ok <==> source is Some
                && keeps(s.readers, source->0)
            &&& decision(session, Operation::Close, r, facts) is Ok <==> source is Some && keeps(
                s.sources,
                source->0,
            )
            &&& decision(session, Operation::CloseFile, r, facts) is Ok <==> source is Some
                && keeps(s.files, source->0)
            &&& decision(session, Operation::DropPlan, r, facts) is Ok <==> r.text_of("plan"@)
                is Some && keeps(s.plans, r.text_of("plan"@)->0)
            &&& decision(session, Operation::CloseIndex, r, facts) is Ok <==> r.text_of("id"@)
                is Some && has_retained(s, r.text_of("id"@)->0)
        }),
{
}

/// A name that stands once is gone once it is taken out, and every other name is where it was.
pub proof fn taking_out_a_name_leaves_the_others(t: Seq<Row>, id: Seq<char>, other: Seq<char>)
    requires
        once(t),
    ensures
        !keeps(without(t, id), id),
        other != id ==> keeps(without(t, id), other) == keeps(t, other),
        other != id && keeps(t, other) ==> row_of(without(t, id), other) == row_of(t, other),
{
    if keeps(t, id) {
        let at = choose|i: int| stands(t, id, i);
        let rest = t.remove(at);
        if keeps(rest, id) {
            let k = choose|i: int| stands(rest, id, i);
            let from = if k < at {
                k
            } else {
                k + 1
            };
            assert(t[from] == rest[k]);
            assert(t[from].0 == t[at].0);
        }
        if other != id && keeps(t, other) {
            let k = choose|i: int| stands(t, other, i);
            let to = if k < at {
                k
            } else {
                k - 1
            };
            assert(rest[to] == t[k]);
            assert(stands(rest, other, to));
            let found = choose|i: int| stands(rest, other, i);
            let from = if found < at {
                found
            } else {
                found + 1
            };
            assert(t[from] == rest[found]);
            assert(t[from].0 == t[k].0);
        }
        if other != id && keeps(rest, other) {
            let k = choose|i: int| stands(rest, other, i);
            let from = if k < at {
                k
            } else {
                k + 1
            };
            assert(t[from] == rest[k]);
            assert(stands(t, other, from));
        }
    }
}

/// Closing a raster closes all that was prepared of it, and nothing of any other.
pub proof fn closing_a_raster_takes_its_fields_along(
    a: Registered,
    b: Registered,
    r: Request,
    facts: Facts,
    other: Seq<char>,
)
    requires
        call_effect(a, b, Operation::Close, r, facts),
        once(a.sources) && once(a.indexes) && once(a.hierarchies),
        once(a.cumulative_full) && once(a.cumulative_blocked),
    ensures
        ({
            let id = r.text_of("source"@)->0;
            &&& !keeps(b.sources, id) && !keeps(b.indexes, id) && !keeps(b.hierarchies, id)
            &&& !keeps(b.cumulative_full, id) && !keeps(b.cumulative_blocked, id)
            &&& other != id ==> keeps(b.sources, other) == keeps(a.sources, other) && keeps(
                b.indexes,
                other,
            ) == keeps(a.indexes, other) && keeps(b.hierarchies, other) == keeps(
                a.hierarchies,
                other,
            ) && keeps(b.cumulative_full, other) == keeps(a.cumulative_full, other) && keeps(
                b.cumulative_blocked,
                other,
            ) == keeps(a.cumulative_blocked, other)
            &&& b.readers == a.readers && b.files == a.files && b.plans == a.plans && b.jobs
                == a.jobs && b.retained == a.retained
        }),
{
    let id = r.text_of("source"@)->0;
    taking_out_a_name_leaves_the_others(a.sources, id, other);
    taking_out_a_name_leaves_the_others(a.indexes, id, other);
    taking_out_a_name_leaves_the_others(a.hierarchies, id, other);
    taking_out_a_name_leaves_the_others(a.cumulative_full, id, other);
    taking_out_a_name_leaves_the_others(a.cumulative_blocked, id, other);
}

} // verus!
