use vstd::prelude::*;
use std::collections::HashSet;

verus! {

use crate::codec;
use crate::codec::{parse_spec, VolumeFileError};
use crate::location::DiskLocation;
use crate::types::{
    default_replica_placement, default_ttl, NeedleMapType, ReplicaPlacement, Ttl, Volume, VolumeId,
    VolumeView,
};

broadcast use vstd::std_specs::hash::group_hash_axioms;

/// A directory entry as the filesystem reports it: its name and whether it
/// is a directory. The caller that scans the directory hands these in.
pub struct DirEntryInfo {
    pub name: String,
    pub is_dir: bool,
}

impl View for DirEntryInfo {
    type V = (Seq<char>, bool);

    open spec fn view(&self) -> (Seq<char>, bool) {
        (self.name@, self.is_dir)
    }
}

/// A discovered, not-yet-registered volume: its identifier and collection.
pub struct Candidate {
    pub vid: VolumeId,
    pub collection: String,
}

impl View for Candidate {
    type V = (VolumeId, Seq<char>);

    open spec fn view(&self) -> (VolumeId, Seq<char>) {
        (self.vid, self.collection@)
    }
}

/// An entry the codec rejected, with the rejection kind.
pub struct EntryFailure {
    pub name: String,
    pub error: VolumeFileError,
}

impl View for EntryFailure {
    type V = (Seq<char>, VolumeFileError);

    open spec fn view(&self) -> (Seq<char>, VolumeFileError) {
        (self.name@, self.error)
    }
}

/// A candidate whose handle construction failed, with the reported message.
pub struct VolumeFailure {
    pub vid: VolumeId,
    pub message: String,
}

impl View for VolumeFailure {
    type V = (VolumeId, Seq<char>);

    open spec fn view(&self) -> (VolumeId, Seq<char>) {
        (self.vid, self.message@)
    }
}

/// Aggregate result of one load pass: per-entry and per-candidate failures
/// are reported beside the count of successes; none of them aborts a scan.
pub struct LoadReport {
    pub loaded_count: usize,
    pub entry_failures: Vec<EntryFailure>,
    pub volume_failures: Vec<VolumeFailure>,
}

pub open spec fn entry_views(s: Seq<DirEntryInfo>) -> Seq<(Seq<char>, bool)> {
    s.map_values(|e: DirEntryInfo| e@)
}

pub open spec fn candidate_views(s: Seq<Candidate>) -> Seq<(VolumeId, Seq<char>)> {
    s.map_values(|c: Candidate| c@)
}

pub open spec fn parts_views(s: Seq<Vec<Candidate>>) -> Seq<Seq<(VolumeId, Seq<char>)>> {
    s.map_values(|p: Vec<Candidate>| candidate_views(p@))
}

pub open spec fn entry_failure_views(s: Seq<EntryFailure>) -> Seq<(Seq<char>, VolumeFileError)> {
    s.map_values(|f: EntryFailure| f@)
}

pub open spec fn volume_failure_views(s: Seq<VolumeFailure>) -> Seq<(VolumeId, Seq<char>)> {
    s.map_values(|f: VolumeFailure| f@)
}

/// Success flags of a list of construction outcomes.
pub open spec fn outcome_flags(s: Seq<Result<(), String>>) -> Seq<bool> {
    s.map_values(|r: Result<(), String>| r is Ok)
}

/// The candidates a scan yields from the entries, given the identifiers
/// already present: entries are read in order; one that parses to an
/// identifier neither present nor seen earlier in the scan becomes a
/// candidate, every other entry is passed over.
pub open spec fn plan_candidates(entries: Seq<(Seq<char>, bool)>, present: Set<VolumeId>) -> Seq<
    (VolumeId, Seq<char>),
>
    decreases entries.len(),
{
    if entries.len() == 0 {
        Seq::empty()
    } else {
        match parse_spec(entries[0].0, entries[0].1) {
            Ok(c) => if present.contains(c.0) {
                plan_candidates(entries.skip(1), present)
            } else {
                seq![c] + plan_candidates(entries.skip(1), present.insert(c.0))
            },
            Err(_) => plan_candidates(entries.skip(1), present),
        }
    }
}

/// The codec rejections a scan reports, in entry order.
pub open spec fn plan_failures(entries: Seq<(Seq<char>, bool)>) -> Seq<(Seq<char>, VolumeFileError)>
    decreases entries.len(),
{
    if entries.len() == 0 {
        Seq::empty()
    } else {
        match parse_spec(entries[0].0, entries[0].1) {
            Ok(_) => plan_failures(entries.skip(1)),
            Err(e) => seq![(entries[0].0, e)] + plan_failures(entries.skip(1)),
        }
    }
}

/// The handle image recorded for a freshly loaded volume: the location's
/// directory, the candidate's collection and identifier, the chosen index
/// kind, default placement and time-to-live, and generation zero.
pub open spec fn fresh_volume(
    dir: Seq<char>,
    collection: Seq<char>,
    vid: VolumeId,
    kind: NeedleMapType,
) -> VolumeView {
    VolumeView {
        directory: dir,
        collection,
        id: vid,
        needle_map_kind: kind,
        replica_placement: default_replica_placement(),
        ttl: default_ttl(),
        generation: 0,
    }
}

/// The registry after applying construction outcomes to the candidates in
/// order: a success inserts a fresh handle, a failure changes nothing.
pub open spec fn apply_outcomes(
    reg: Map<VolumeId, VolumeView>,
    cands: Seq<(VolumeId, Seq<char>)>,
    flags: Seq<bool>,
    dir: Seq<char>,
    kind: NeedleMapType,
) -> Map<VolumeId, VolumeView>
    decreases cands.len(),
{
    if cands.len() == 0 {
        reg
    } else {
        let reg1 = if flags[0] {
            reg.insert(cands[0].0, fresh_volume(dir, cands[0].1, cands[0].0, kind))
        } else {
            reg
        };
        apply_outcomes(reg1, cands.skip(1), flags.skip(1), dir, kind)
    }
}

/// The construction failures of a candidate list, in order: the failed
/// candidate's identifier with the reported message.
pub open spec fn failure_views_of(
    cands: Seq<(VolumeId, Seq<char>)>,
    outcomes: Seq<Result<(), String>>,
) -> Seq<(VolumeId, Seq<char>)>
    decreases cands.len(),
{
    if cands.len() == 0 || outcomes.len() == 0 {
        Seq::empty()
    } else {
        match outcomes[0] {
            Ok(_) => failure_views_of(cands.skip(1), outcomes.skip(1)),
            Err(m) => seq![(cands[0].0, m@)] + failure_views_of(cands.skip(1), outcomes.skip(1)),
        }
    }
}

/// How many outcomes report success.
pub open spec fn count_loaded(flags: Seq<bool>) -> nat
    decreases flags.len(),
{
    if flags.len() == 0 {
        0
    } else {
        (if flags[0] {
            1nat
        } else {
            0nat
        }) + count_loaded(flags.skip(1))
    }
}

/// No two candidates share an identifier.
pub open spec fn distinct_vids(cands: Seq<(VolumeId, Seq<char>)>) -> bool {
    forall|i: int, j: int| 0 <= i < j < cands.len() ==> cands[i].0 != cands[j].0
}

/// A scan's candidates carry pairwise distinct identifiers, none of them
/// already present.
pub proof fn lemma_plan_candidates_fresh(entries: Seq<(Seq<char>, bool)>, present: Set<VolumeId>)
    ensures
        distinct_vids(plan_candidates(entries, present)),
        forall|i: int| 0 <= i < plan_candidates(entries, present).len() ==> !present.contains(
            #[trigger] plan_candidates(entries, present)[i].0,
        ),
    decreases entries.len(),
{
    if entries.len() == 0 {
    } else {
        let rest = entries.skip(1);
        match parse_spec(entries[0].0, entries[0].1) {
            Ok(c) => {
                if present.contains(c.0) {
                    lemma_plan_candidates_fresh(rest, present);
                } else {
                    lemma_plan_candidates_fresh(rest, present.insert(c.0));
                    let tail = plan_candidates(rest, present.insert(c.0));
                    let whole = plan_candidates(entries, present);
                    assert(whole == seq![c] + tail);
                    assert(whole[0] == c);
                    assert(forall|i: int| 1 <= i < whole.len() ==> whole[i] == tail[i - 1]);
                }
            },
            Err(_) => {
                lemma_plan_candidates_fresh(rest, present);
            },
        }
    }
}


/// Applying a concatenation of candidate lists is applying them in turn.
pub proof fn lemma_apply_append(
    reg: Map<VolumeId, VolumeView>,
    a: Seq<(VolumeId, Seq<char>)>,
    fa: Seq<bool>,
    b: Seq<(VolumeId, Seq<char>)>,
    fb: Seq<bool>,
    dir: Seq<char>,
    kind: NeedleMapType,
)
    requires
        a.len() == fa.len(),
    ensures
        apply_outcomes(reg, a + b, fa + fb, dir, kind) == apply_outcomes(
            apply_outcomes(reg, a, fa, dir, kind),
            b,
            fb,
            dir,
            kind,
        ),
    decreases a.len(),
{
    if a.len() == 0 {
        assert(a + b =~= b);
        assert(fa + fb =~= fb);
    } else {
        assert((a + b)[0] == a[0]);
        assert((fa + fb)[0] == fa[0]);
        assert((a + b).skip(1) =~= a.skip(1) + b);
        assert((fa + fb).skip(1) =~= fa.skip(1) + fb);
        let reg1 = if fa[0] {
            reg.insert(a[0].0, fresh_volume(dir, a[0].1, a[0].0, kind))
        } else {
            reg
        };
        lemma_apply_append(reg1, a.skip(1), fa.skip(1), b, fb, dir, kind);
    }
}

/// One candidate's insertion step commutes past a list of candidates that
/// all carry other identifiers.
pub proof fn lemma_apply_single_commute(
    reg: Map<VolumeId, VolumeView>,
    c: (VolumeId, Seq<char>),
    f: bool,
    cands: Seq<(VolumeId, Seq<char>)>,
    flags: Seq<bool>,
    dir: Seq<char>,
    kind: NeedleMapType,
)
    requires
        cands.len() == flags.len(),
        forall|i: int| 0 <= i < cands.len() ==> (#[trigger] cands[i]).0 != c.0,
    ensures
        ({
            let stepped = if f {
                reg.insert(c.0, fresh_volume(dir, c.1, c.0, kind))
            } else {
                reg
            };
            apply_outcomes(stepped, cands, flags, dir, kind) == (if f {
                apply_outcomes(reg, cands, flags, dir, kind).insert(
                    c.0,
                    fresh_volume(dir, c.1, c.0, kind),
                )
            } else {
                apply_outcomes(reg, cands, flags, dir, kind)
            })
        }),
    decreases cands.len(),
{
    if cands.len() == 0 {
    } else {
        let v = fresh_volume(dir, c.1, c.0, kind);
        let v0 = fresh_volume(dir, cands[0].1, cands[0].0, kind);
        assert(forall|i: int|
            0 <= i < cands.skip(1).len() ==> (#[trigger] cands.skip(1)[i]).0 != c.0);
        if flags[0] {
            assert(reg.insert(c.0, v).insert(cands[0].0, v0) =~= reg.insert(
                cands[0].0,
                v0,
            ).insert(c.0, v));
            lemma_apply_single_commute(
                reg.insert(cands[0].0, v0),
                c,
                f,
                cands.skip(1),
                flags.skip(1),
                dir,
                kind,
            );
        } else {
            lemma_apply_single_commute(reg, c, f, cands.skip(1), flags.skip(1), dir, kind);
        }
    }
}

/// Two candidate lists with disjoint identifiers apply in either order.
pub proof fn lemma_apply_commute(
    reg: Map<VolumeId, VolumeView>,
    a: Seq<(VolumeId, Seq<char>)>,
    fa: Seq<bool>,
    b: Seq<(VolumeId, Seq<char>)>,
    fb: Seq<bool>,
    dir: Seq<char>,
    kind: NeedleMapType,
)
    requires
        a.len() == fa.len(),
        b.len() == fb.len(),
        forall|i: int, j: int|
            0 <= i < a.len() && 0 <= j < b.len() ==> (#[trigger] a[i]).0 != (#[trigger] b[j]).0,
    ensures
        apply_outcomes(apply_outcomes(reg, a, fa, dir, kind), b, fb, dir, kind) == apply_outcomes(
            apply_outcomes(reg, b, fb, dir, kind),
            a,
            fa,
            dir,
            kind,
        ),
    decreases a.len(),
{
    if a.len() == 0 {
    } else {
        let c = a[0];
        let f = fa[0];
        let stepped = if f {
            reg.insert(c.0, fresh_volume(dir, c.1, c.0, kind))
        } else {
            reg
        };
        assert(forall|i: int, j: int|
            0 <= i < a.skip(1).len() && 0 <= j < b.len() ==> (#[trigger] a.skip(1)[i]).0 != (
            #[trigger] b[j]).0);
        lemma_apply_commute(stepped, a.skip(1), fa.skip(1), b, fb, dir, kind);
        assert(forall|j: int| 0 <= j < b.len() ==> (#[trigger] b[j]).0 != c.0);
        lemma_apply_single_commute(reg, c, f, b, fb, dir, kind);
    }
}

/// A successful outcome can only add its candidate identifier: the final
/// registry's keys come from the initial keys and the candidate list, and


/// Success count of a concatenation is the sum of the parts.
pub proof fn lemma_count_loaded_append(fa: Seq<bool>, fb: Seq<bool>)
    ensures
        count_loaded(fa + fb) == count_loaded(fa) + count_loaded(fb),
    decreases fa.len(),
{
    if fa.len() == 0 {
        assert(fa + fb =~= fb);
    } else {
        assert((fa + fb)[0] == fa[0]);
        assert((fa + fb).skip(1) =~= fa.skip(1) + fb);
        lemma_count_loaded_append(fa.skip(1), fb);
    }
}

/// There are never more successes than outcomes.
pub proof fn lemma_count_loaded_le(flags: Seq<bool>)
    ensures
        count_loaded(flags) <= flags.len(),
    decreases flags.len(),
{
    if flags.len() == 0 {
    } else {
        lemma_count_loaded_le(flags.skip(1));
    }
}

/// Failure reports of a concatenation are the parts' reports in turn.
pub proof fn lemma_failure_views_append(
    a: Seq<(VolumeId, Seq<char>)>,
    oa: Seq<Result<(), String>>,
    b: Seq<(VolumeId, Seq<char>)>,
    ob: Seq<Result<(), String>>,
)
    requires
        a.len() == oa.len(),
    ensures
        failure_views_of(a + b, oa + ob) == failure_views_of(a, oa) + failure_views_of(b, ob),
    decreases a.len(),
{
    if a.len() == 0 {
        assert(a + b =~= b);
        assert(oa + ob =~= ob);
        assert(failure_views_of(a, oa) + failure_views_of(b, ob) =~= failure_views_of(b, ob));
    } else {
        assert((a + b)[0] == a[0]);
        assert((oa + ob)[0] == oa[0]);
        assert((a + b).skip(1) =~= a.skip(1) + b);
        assert((oa + ob).skip(1) =~= oa.skip(1) + ob);
        lemma_failure_views_append(a.skip(1), oa.skip(1), b, ob);
        match oa[0] {
            Ok(_) => {},
            Err(m) => {
                assert(seq![(a[0].0, m@)] + (failure_views_of(a.skip(1), oa.skip(1))
                    + failure_views_of(b, ob)) =~= (seq![(a[0].0, m@)] + failure_views_of(
                    a.skip(1),
                    oa.skip(1),
                )) + failure_views_of(b, ob));
            },
        }
    }
}

/// Splits a sequence into chunks of `cs` items each, in order; the last
/// chunk may be shorter. With fewer than one item per chunk nothing is
/// produced.
pub open spec fn chunks_of<T>(s: Seq<T>, cs: int) -> Seq<Seq<T>>
    decreases s.len(),
{
    if s.len() == 0 || cs < 1 {
        Seq::empty()
    } else if s.len() <= cs {
        seq![s]
    } else {
        seq![s.take(cs)] + chunks_of(s.skip(cs), cs)
    }
}

/// Concatenation of a chunk list in reverse order: the last chunk's items
/// come first.
pub open spec fn rev_concat<T>(chunks: Seq<Seq<T>>) -> Seq<T>
    decreases chunks.len(),
{
    if chunks.len() == 0 {
        Seq::empty()
    } else {
        rev_concat(chunks.skip(1)) + chunks[0]
    }
}

/// Chunking keeps every item: reverse concatenation has the same length.
pub proof fn lemma_rev_chunks_len<T>(s: Seq<T>, cs: int)
    requires
        cs >= 1,
    ensures
        rev_concat(chunks_of(s, cs)).len() == s.len(),
    decreases s.len(),
{
    if s.len() == 0 {
    } else if s.len() <= cs {
        assert(chunks_of(s, cs) == seq![s]);
        assert(chunks_of(s, cs).skip(1) =~= Seq::<Seq<T>>::empty());
        assert(rev_concat(Seq::<Seq<T>>::empty()) == Seq::<T>::empty());
        assert(rev_concat(chunks_of(s, cs)) == rev_concat(chunks_of(s, cs).skip(1))
            + chunks_of(s, cs)[0]);
    } else {
        assert(chunks_of(s, cs) == seq![s.take(cs)] + chunks_of(s.skip(cs), cs));
        assert(chunks_of(s, cs).skip(1) =~= chunks_of(s.skip(cs), cs));
        assert(rev_concat(chunks_of(s, cs)) == rev_concat(chunks_of(s, cs).skip(1))
            + chunks_of(s, cs)[0]);
        lemma_rev_chunks_len(s.skip(cs), cs);
    }
}

/// A load never removes a registered identifier.
pub proof fn lemma_apply_keeps_key(
    reg: Map<VolumeId, VolumeView>,
    cands: Seq<(VolumeId, Seq<char>)>,
    flags: Seq<bool>,
    dir: Seq<char>,
    kind: NeedleMapType,
    vid: VolumeId,
)
    requires
        cands.len() == flags.len(),
        reg.contains_key(vid),
    ensures
        apply_outcomes(reg, cands, flags, dir, kind).contains_key(vid),
    decreases cands.len(),
{
    if cands.len() == 0 {
    } else {
        let reg1 = if flags[0] {
            reg.insert(cands[0].0, fresh_volume(dir, cands[0].1, cands[0].0, kind))
        } else {
            reg
        };
        lemma_apply_keeps_key(reg1, cands.skip(1), flags.skip(1), dir, kind, vid);
    }
}

/// A load adds no identifier outside its candidate list.
pub proof fn lemma_apply_no_new_key(
    reg: Map<VolumeId, VolumeView>,
    cands: Seq<(VolumeId, Seq<char>)>,
    flags: Seq<bool>,
    dir: Seq<char>,
    kind: NeedleMapType,
    vid: VolumeId,
)
    requires
        cands.len() == flags.len(),
        !reg.contains_key(vid),
        forall|i: int| 0 <= i < cands.len() ==> (#[trigger] cands[i]).0 != vid,
    ensures
        !apply_outcomes(reg, cands, flags, dir, kind).contains_key(vid),
    decreases cands.len(),
{
    if cands.len() == 0 {
    } else {
        let reg1 = if flags[0] {
            reg.insert(cands[0].0, fresh_volume(dir, cands[0].1, cands[0].0, kind))
        } else {
            reg
        };
        assert(forall|i: int|
            0 <= i < cands.skip(1).len() ==> (#[trigger] cands.skip(1)[i]).0 != vid);
        lemma_apply_no_new_key(reg1, cands.skip(1), flags.skip(1), dir, kind, vid);
    }
}

/// A successful candidate's identifier is registered after the load.
pub proof fn lemma_apply_success_key(
    reg: Map<VolumeId, VolumeView>,
    cands: Seq<(VolumeId, Seq<char>)>,
    flags: Seq<bool>,
    dir: Seq<char>,
    kind: NeedleMapType,
    i: int,
)
    requires
        cands.len() == flags.len(),
        0 <= i < cands.len(),
        flags[i],
    ensures
        apply_outcomes(reg, cands, flags, dir, kind).contains_key(cands[i].0),
    decreases cands.len(),
{
    let reg1 = if flags[0] {
        reg.insert(cands[0].0, fresh_volume(dir, cands[0].1, cands[0].0, kind))
    } else {
        reg
    };
    if i == 0 {
        lemma_apply_keeps_key(reg1, cands.skip(1), flags.skip(1), dir, kind, cands[0].0);
    } else {
        assert(cands.skip(1)[i - 1] == cands[i]);
        assert(flags.skip(1)[i - 1] == flags[i]);
        lemma_apply_success_key(reg1, cands.skip(1), flags.skip(1), dir, kind, i - 1);
    }
}

/// Chunking and reverse concatenation introduce no identifier that the
/// sequence does not hold.
pub proof fn lemma_rev_chunks_no_vid(s: Seq<(VolumeId, Seq<char>)>, cs: int, vid: VolumeId)
    requires
        cs >= 1,
        forall|j: int| 0 <= j < s.len() ==> (#[trigger] s[j]).0 != vid,
    ensures
        forall|i: int|
            0 <= i < rev_concat(chunks_of(s, cs)).len() ==> (#[trigger] rev_concat(
                chunks_of(s, cs),
            )[i]).0 != vid,
    decreases s.len(),
{
    if s.len() == 0 {
    } else if s.len() <= cs {
        assert(chunks_of(s, cs) == seq![s]);
        assert(chunks_of(s, cs).skip(1) =~= Seq::<Seq<(VolumeId, Seq<char>)>>::empty());
        assert(rev_concat(Seq::<Seq<(VolumeId, Seq<char>)>>::empty()) == Seq::<
            (VolumeId, Seq<char>),
        >::empty());
        assert(rev_concat(chunks_of(s, cs)) == rev_concat(chunks_of(s, cs).skip(1))
            + chunks_of(s, cs)[0]);
        assert(forall|i: int|
            0 <= i < rev_concat(chunks_of(s, cs)).len() ==> rev_concat(chunks_of(s, cs))[i]
                == s[i]);
    } else {
        let b = s.skip(cs);
        assert(forall|j: int| 0 <= j < b.len() ==> (#[trigger] b[j]).0 != vid);
        lemma_rev_chunks_no_vid(b, cs, vid);
        assert(chunks_of(s, cs) == seq![s.take(cs)] + chunks_of(b, cs));
        assert(chunks_of(s, cs).skip(1) =~= chunks_of(b, cs));
        assert(rev_concat(chunks_of(s, cs)) == rev_concat(chunks_of(s, cs).skip(1))
            + chunks_of(s, cs)[0]);
        let rb = rev_concat(chunks_of(b, cs));
        assert(rev_concat(chunks_of(s, cs)) == rb + s.take(cs));
        assert forall|i: int|
            0 <= i < rev_concat(chunks_of(s, cs)).len() implies (#[trigger] rev_concat(
            chunks_of(s, cs),
        )[i]).0 != vid by {
            if i < rb.len() {
                assert(rev_concat(chunks_of(s, cs))[i] == rb[i]);
            } else {
                assert(rev_concat(chunks_of(s, cs))[i] == s.take(cs)[i - rb.len()]);
                assert(s.take(cs)[i - rb.len()] == s[i - rb.len()]);
            }
        }
    }
}

/// Law: merging a planned candidate list chunk by chunk, later chunks
/// first, ends in the same registry as merging it in scan order. With
/// pairwise distinct identifiers the load's end state does not depend on
/// the order in which workers' shares are merged.
pub proof fn lemma_apply_rev_chunks(
    reg: Map<VolumeId, VolumeView>,
    cands: Seq<(VolumeId, Seq<char>)>,
    flags: Seq<bool>,
    dir: Seq<char>,
    kind: NeedleMapType,
    cs: int,
)
    requires
        cands.len() == flags.len(),
        distinct_vids(cands),
        cs >= 1,
    ensures
        apply_outcomes(
            reg,
            rev_concat(chunks_of(cands, cs)),
            rev_concat(chunks_of(flags, cs)),
            dir,
            kind,
        ) == apply_outcomes(reg, cands, flags, dir, kind),
    decreases cands.len(),
{
    if cands.len() == 0 {
    } else if cands.len() <= cs {
        assert(chunks_of(cands, cs) == seq![cands]);
        assert(chunks_of(flags, cs) == seq![flags]);
        assert(chunks_of(cands, cs).skip(1) =~= Seq::<Seq<(VolumeId, Seq<char>)>>::empty());
        assert(chunks_of(flags, cs).skip(1) =~= Seq::<Seq<bool>>::empty());
        assert(rev_concat(Seq::<Seq<(VolumeId, Seq<char>)>>::empty()) == Seq::<
            (VolumeId, Seq<char>),
        >::empty());
        assert(rev_concat(Seq::<Seq<bool>>::empty()) == Seq::<bool>::empty());
        assert(rev_concat(chunks_of(cands, cs)) == rev_concat(chunks_of(cands, cs).skip(1))
            + chunks_of(cands, cs)[0]);
        assert(rev_concat(chunks_of(flags, cs)) == rev_concat(chunks_of(flags, cs).skip(1))
            + chunks_of(flags, cs)[0]);
        assert(rev_concat(chunks_of(cands, cs)) =~= cands);
        assert(rev_concat(chunks_of(flags, cs)) =~= flags);
    } else {
        let a = cands.take(cs);
        let fa = flags.take(cs);
        let b = cands.skip(cs);
        let fb = flags.skip(cs);
        assert(chunks_of(cands, cs) == seq![a] + chunks_of(b, cs));
        assert(chunks_of(flags, cs) == seq![fa] + chunks_of(fb, cs));
        assert((seq![a] + chunks_of(b, cs)).skip(1) =~= chunks_of(b, cs));
        assert((seq![fa] + chunks_of(fb, cs)).skip(1) =~= chunks_of(fb, cs));
        let rb = rev_concat(chunks_of(b, cs));
        let rfb = rev_concat(chunks_of(fb, cs));
        assert(rev_concat(chunks_of(cands, cs)) == rev_concat(chunks_of(cands, cs).skip(1))
            + chunks_of(cands, cs)[0]);
        assert(rev_concat(chunks_of(flags, cs)) == rev_concat(chunks_of(flags, cs).skip(1))
            + chunks_of(flags, cs)[0]);
        assert(chunks_of(cands, cs).skip(1) =~= chunks_of(b, cs));
        assert(chunks_of(flags, cs).skip(1) =~= chunks_of(fb, cs));
        assert(rev_concat(chunks_of(cands, cs)) == rb + a);
        assert(rev_concat(chunks_of(flags, cs)) == rfb + fa);
        lemma_rev_chunks_len(b, cs);
        lemma_rev_chunks_len(fb, cs);
        lemma_apply_append(reg, rb, rfb, a, fa, dir, kind);
        assert(distinct_vids(b)) by {
            assert(forall|i: int, j: int|
                0 <= i < j < b.len() ==> (#[trigger] b[i]).0 != (#[trigger] b[j]).0);
        }
        lemma_apply_rev_chunks(reg, b, fb, dir, kind, cs);
        assert(forall|i: int, j: int|
            0 <= i < a.len() && 0 <= j < b.len() ==> (#[trigger] a[i]).0 != (#[trigger] b[j]).0);
        lemma_apply_commute(reg, a, fa, b, fb, dir, kind);
        lemma_apply_append(reg, a, fa, b, fb, dir, kind);
        assert(a + b =~= cands);
        assert(fa + fb =~= flags);
    }
}


/// Worker count clamped to at least one.
pub open spec fn clamped_width(concurrency: int) -> int {
    if concurrency < 1 {
        1
    } else {
        concurrency
    }
}

/// Candidates per worker share: the ceiling of `len` over `width`, and one
/// when there is nothing to share out.
pub open spec fn chunk_len(len: int, width: int) -> int {
    if len == 0 {
        1
    } else {
        (len - 1) / width + 1
    }
}

/// Copies one contiguous share of a candidate list.
fn clone_candidate_range(cands: &Vec<Candidate>, from: usize, to: usize) -> (out: Vec<Candidate>)
    requires
        from <= to <= cands@.len(),
    ensures
        out@ == cands@.subrange(from as int, to as int),
{
    let mut out: Vec<Candidate> = Vec::new();
    let mut k = from;
    proof {
        assert(out@ =~= cands@.subrange(from as int, from as int));
    }
    while k < to
        invariant
            from <= k <= to <= cands@.len(),
            out@ == cands@.subrange(from as int, k as int),
        decreases to - k,
    {
        let c = &cands[k];
        out.push(Candidate { vid: c.vid, collection: c.collection.clone() });
        proof {
            assert(out@.last() == cands@[k as int]);
            assert(out@ =~= cands@.subrange(from as int, k as int + 1));
        }
        k += 1;
    }
    out
}

/// Copies one contiguous share of a construction-outcome list.
fn clone_outcome_range(outcomes: &Vec<Result<(), String>>, from: usize, to: usize) -> (out: Vec<
    Result<(), String>,
>)
    requires
        from <= to <= outcomes@.len(),
    ensures
        out@ == outcomes@.subrange(from as int, to as int),
{
    let mut out: Vec<Result<(), String>> = Vec::new();
    let mut k = from;
    proof {
        assert(out@ =~= outcomes@.subrange(from as int, from as int));
    }
    while k < to
        invariant
            from <= k <= to <= outcomes@.len(),
            out@ == outcomes@.subrange(from as int, k as int),
        decreases to - k,
    {
        let copied: Result<(), String> = match &outcomes[k] {
            Ok(_) => Ok(()),
            Err(m) => Err(m.clone()),
        };
        proof {
            if outcomes@[k as int] is Ok {
                assert(copied is Ok);
                assert(copied->Ok_0 == outcomes@[k as int]->Ok_0);
                assert(copied == outcomes@[k as int]);
            } else {
                assert(copied is Err);
                assert(copied->Err_0 == outcomes@[k as int]->Err_0);
                assert(copied == outcomes@[k as int]);
            }
        }
        out.push(copied);
        proof {
            assert(out@.last() == outcomes@[k as int]);
            assert(out@ =~= outcomes@.subrange(from as int, k as int + 1));
        }
        k += 1;
    }
    out
}

/// Splits a planned candidate list into per-worker shares: contiguous runs
/// of `chunk_len` candidates, in scan order, covering the list exactly.
pub fn partition_candidates(cands: &Vec<Candidate>, concurrency: usize) -> (parts: Vec<
    Vec<Candidate>,
>)
    ensures
        parts_views(parts@) == chunks_of(
            candidate_views(cands@),
            chunk_len(cands@.len() as int, clamped_width(concurrency as int)),
        ),
{
    let ghost cvs = candidate_views(cands@);
    let width = if concurrency < 1 {
        1
    } else {
        concurrency
    };
    let cs = if cands.len() == 0 {
        1
    } else {
        let q = (cands.len() - 1) / width;
        proof {
            assert(q <= cands@.len() - 1) by (nonlinear_arith)
                requires
                    width >= 1,
                    cands@.len() >= 1,
                    q == ((cands@.len() - 1) as int) / (width as int),
            ;
        }
        q + 1
    };
    proof {
        assert(cs as int == chunk_len(cands@.len() as int, clamped_width(concurrency as int)));
        assert(cvs.skip(0) =~= cvs);
        assert(parts_views(Seq::<Vec<Candidate>>::empty()) + chunks_of(cvs, cs as int)
            =~= chunks_of(cvs, cs as int));
    }
    let mut parts: Vec<Vec<Candidate>> = Vec::new();
    let mut pos: usize = 0;
    while pos < cands.len()
        invariant
            pos <= cands@.len(),
            cs >= 1,
            cvs == candidate_views(cands@),
            cs as int == chunk_len(cands@.len() as int, clamped_width(concurrency as int)),
            chunks_of(cvs, cs as int) == parts_views(parts@) + chunks_of(
                cvs.skip(pos as int),
                cs as int,
            ),
        decreases cands@.len() - pos,
    {
        let remaining = cands.len() - pos;
        let clen = if remaining <= cs {
            remaining
        } else {
            cs
        };
        let chunk = clone_candidate_range(cands, pos, pos + clen);
        let ghost oldparts = parts@;
        let ghost chunkv = candidate_views(chunk@);
        parts.push(chunk);
        proof {
            let tail = cvs.skip(pos as int);
            assert(tail.len() == remaining);
            assert forall|i: int| 0 <= i < chunkv.len() implies chunkv[i] == cvs[pos + i] by {
                assert(chunk@[i] == cands@[pos + i]);
                assert(cvs[pos + i] == cands@[pos + i]@);
            }
            assert(chunkv =~= cvs.subrange(pos as int, pos as int + clen as int));
            if remaining <= cs {
                assert(chunks_of(tail, cs as int) == seq![tail]);
                assert(chunkv =~= tail);
                assert(cvs.skip(pos as int + clen as int) =~= Seq::<
                    (VolumeId, Seq<char>),
                >::empty());
                assert(chunks_of(cvs.skip(pos as int + clen as int), cs as int) == Seq::<
                    Seq<(VolumeId, Seq<char>)>,
                >::empty());
            } else {
                assert(chunks_of(tail, cs as int) == seq![tail.take(cs as int)] + chunks_of(
                    tail.skip(cs as int),
                    cs as int,
                ));
                assert(chunkv =~= tail.take(cs as int));
                assert(tail.skip(cs as int) =~= cvs.skip(pos as int + clen as int));
            }
            assert(parts_views(parts@) =~= parts_views(oldparts).push(chunkv));
            assert(parts_views(oldparts).push(chunkv) + chunks_of(
                cvs.skip(pos as int + clen as int),
                cs as int,
            ) =~= parts_views(oldparts) + (seq![chunkv] + chunks_of(
                cvs.skip(pos as int + clen as int),
                cs as int,
            )));
        }
        pos += clen;
    }
    proof {
        assert(cvs.skip(pos as int) =~= Seq::<(VolumeId, Seq<char>)>::empty());
        assert(chunks_of(cvs.skip(pos as int), cs as int) == Seq::<
            Seq<(VolumeId, Seq<char>)>,
        >::empty());
        assert(parts_views(parts@) + Seq::<Seq<(VolumeId, Seq<char>)>>::empty() =~= parts_views(
            parts@,
        ));
    }
    parts
}


/// Some candidate carries this identifier.
pub open spec fn has_vid(cands: Seq<(VolumeId, Seq<char>)>, vid: VolumeId) -> bool {
    exists|i: int| 0 <= i < cands.len() && (#[trigger] cands[i]).0 == vid
}

/// Widening the set of already-present identifiers only removes
/// candidates: an identifier planned against the wider set is also planned
/// against the narrower one.
pub proof fn lemma_plan_monotone(
    entries: Seq<(Seq<char>, bool)>,
    p: Set<VolumeId>,
    q: Set<VolumeId>,
    vid: VolumeId,
)
    requires
        forall|v: VolumeId| p.contains(v) ==> q.contains(v),
        has_vid(plan_candidates(entries, q), vid),
    ensures
        has_vid(plan_candidates(entries, p), vid),
    decreases entries.len(),
{
    if entries.len() == 0 {
    } else {
        let rest = entries.skip(1);
        match parse_spec(entries[0].0, entries[0].1) {
            Ok(c) => {
                if p.contains(c.0) {
                    lemma_plan_monotone(rest, p, q, vid);
                } else if q.contains(c.0) {
                    let whole = plan_candidates(entries, p);
                    let tail = plan_candidates(rest, p.insert(c.0));
                    assert(whole == seq![c] + tail);
                    if vid == c.0 {
                        assert(whole[0].0 == vid);
                    } else {
                        lemma_plan_monotone(rest, p.insert(c.0), q, vid);
                        let i = choose|i: int|
                            0 <= i < tail.len() && (#[trigger] tail[i]).0 == vid;
                        assert(whole[i + 1].0 == vid);
                    }
                } else {
                    let wq = plan_candidates(entries, q);
                    let tq = plan_candidates(rest, q.insert(c.0));
                    assert(wq == seq![c] + tq);
                    let whole = plan_candidates(entries, p);
                    let tail = plan_candidates(rest, p.insert(c.0));
                    assert(whole == seq![c] + tail);
                    if vid == c.0 {
                        assert(whole[0].0 == vid);
                    } else {
                        let k = choose|k: int| 0 <= k < wq.len() && (#[trigger] wq[k]).0 == vid;
                        assert(k >= 1);
                        assert(tq[k - 1].0 == vid);
                        assert(has_vid(tq, vid));
                        lemma_plan_monotone(rest, p.insert(c.0), q.insert(c.0), vid);
                        let i = choose|i: int|
                            0 <= i < tail.len() && (#[trigger] tail[i]).0 == vid;
                        assert(whole[i + 1].0 == vid);
                    }
                }
            },
            Err(_) => {
                lemma_plan_monotone(rest, p, q, vid);
            },
        }
    }
}

/// A pass whose constructions all failed changes nothing.
pub proof fn lemma_apply_all_false(
    reg: Map<VolumeId, VolumeView>,
    cands: Seq<(VolumeId, Seq<char>)>,
    flags: Seq<bool>,
    dir: Seq<char>,
    kind: NeedleMapType,
)
    requires
        cands.len() == flags.len(),
        forall|i: int| 0 <= i < flags.len() ==> !(#[trigger] flags[i]),
    ensures
        apply_outcomes(reg, cands, flags, dir, kind) == reg,
    decreases cands.len(),
{
    if cands.len() == 0 {
    } else {
        assert(!flags[0]);
        assert(forall|i: int| 0 <= i < flags.skip(1).len() ==> !(#[trigger] flags.skip(1)[i]));
        lemma_apply_all_false(reg, cands.skip(1), flags.skip(1), dir, kind);
    }
}

/// Law: rescanning an unchanged directory is idempotent. When each
/// volume's construction outcome is a function of its identifier — an
/// unchanged directory yields the same outcome for the same file — a
/// second pass over the same entries leaves the registry exactly as the
/// first pass left it: nothing is constructed again successfully, nothing
/// is replaced, nothing is added.
pub proof fn lemma_rescan_idempotent(
    reg: Map<VolumeId, VolumeView>,
    entries: Seq<(Seq<char>, bool)>,
    ok: Map<VolumeId, bool>,
    flags1: Seq<bool>,
    flags2: Seq<bool>,
    dir: Seq<char>,
    kind: NeedleMapType,
)
    requires
        flags1.len() == plan_candidates(entries, reg.dom()).len(),
        forall|i: int|
            0 <= i < flags1.len() ==> #[trigger] flags1[i] == ok[plan_candidates(
                entries,
                reg.dom(),
            )[i].0],
        flags2.len() == plan_candidates(
            entries,
            apply_outcomes(reg, plan_candidates(entries, reg.dom()), flags1, dir, kind).dom(),
        ).len(),
        forall|j: int|
            0 <= j < flags2.len() ==> #[trigger] flags2[j] == ok[plan_candidates(
                entries,
                apply_outcomes(reg, plan_candidates(entries, reg.dom()), flags1, dir, kind).dom(),
            )[j].0],
    ensures
        ({
            let reg1 = apply_outcomes(reg, plan_candidates(entries, reg.dom()), flags1, dir, kind);
            apply_outcomes(reg1, plan_candidates(entries, reg1.dom()), flags2, dir, kind) == reg1
        }),
{
    let cands1 = plan_candidates(entries, reg.dom());
    let reg1 = apply_outcomes(reg, cands1, flags1, dir, kind);
    let cands2 = plan_candidates(entries, reg1.dom());
    lemma_plan_candidates_fresh(entries, reg.dom());
    lemma_plan_candidates_fresh(entries, reg1.dom());
    assert forall|v: VolumeId| reg.dom().contains(v) implies reg1.dom().contains(v) by {
        lemma_apply_keeps_key(reg, cands1, flags1, dir, kind, v);
    }
    assert forall|j: int| 0 <= j < flags2.len() implies !(#[trigger] flags2[j]) by {
        let vid = cands2[j].0;
        assert(!reg1.dom().contains(vid));
        assert(has_vid(cands2, vid));
        lemma_plan_monotone(entries, reg.dom(), reg1.dom(), vid);
        let i = choose|i: int| 0 <= i < cands1.len() && (#[trigger] cands1[i]).0 == vid;
        if ok[vid] {
            assert(flags1[i]);
            lemma_apply_success_key(reg, cands1, flags1, dir, kind, i);
            assert(reg1.contains_key(vid));
        }
        assert(flags2[j] == ok[vid]);
    }
    lemma_apply_all_false(reg1, cands2, flags2, dir, kind);
}

impl DiskLocation {
    /// Scan pass of a load: runs the codec over the entries in order,
    /// collects the candidates not yet registered and not seen earlier in
    /// this scan, and reports every rejected entry.
    pub fn plan_load(&self, entries: &Vec<DirEntryInfo>) -> (r: (Vec<Candidate>, Vec<EntryFailure>))
        ensures
            candidate_views(r.0@) == plan_candidates(entry_views(entries@), self.registry().dom()),
            entry_failure_views(r.1@) == plan_failures(entry_views(entries@)),
    {
        let ghost evs = entry_views(entries@);
        let ghost dom0 = self.registry().dom();
        let mut cands: Vec<Candidate> = Vec::new();
        let mut fails: Vec<EntryFailure> = Vec::new();
        let mut seen: HashSet<VolumeId> = HashSet::new();
        let mut idx: usize = 0;
        proof {
            assert(evs.skip(0) =~= evs);
            assert(dom0.union(seen@) =~= dom0);
            assert(candidate_views(cands@) + plan_candidates(evs, dom0) =~= plan_candidates(
                evs,
                dom0,
            ));
            assert(entry_failure_views(fails@) + plan_failures(evs) =~= plan_failures(evs));
        }
        while idx < entries.len()
            invariant
                idx <= entries.len(),
                evs == entry_views(entries@),
                evs.len() == entries@.len(),
                dom0 == self.registry().dom(),
                plan_candidates(evs, dom0) == candidate_views(cands@) + plan_candidates(
                    evs.skip(idx as int),
                    dom0.union(seen@),
                ),
                plan_failures(evs) == entry_failure_views(fails@) + plan_failures(
                    evs.skip(idx as int),
                ),
            decreases entries.len() - idx,
        {
            let ghost pres = dom0.union(seen@);
            let entry = &entries[idx];
            proof {
                assert(evs[idx as int] == entries@[idx as int]@);
                assert(evs.skip(idx as int)[0] == evs[idx as int]);
                assert(evs.skip(idx as int).skip(1) =~= evs.skip(idx as int + 1));
            }
            match codec::parse_volume_file_name(entry.name.as_str(), entry.is_dir) {
                Ok(pair) => {
                    let (vid, collection) = pair;
                    let ghost cv = (vid, collection@);
                    let registered = self.has_volume(vid);
                    let seen_before = seen.contains(&vid);
                    proof {
                        assert(pres.contains(vid) == (registered || seen_before));
                    }
                    if !registered && !seen_before {
                        seen.insert(vid);
                        let ghost old_cands = cands@;
                        cands.push(Candidate { vid, collection });
                        proof {
                            assert(plan_candidates(evs.skip(idx as int), pres) == seq![cv]
                                + plan_candidates(evs.skip(idx as int + 1), pres.insert(vid)));
                            assert(pres.insert(vid) =~= dom0.union(seen@));
                            assert(candidate_views(cands@) =~= candidate_views(old_cands).push(cv));
                            assert(candidate_views(old_cands) + (seq![cv] + plan_candidates(
                                evs.skip(idx as int + 1),
                                dom0.union(seen@),
                            )) =~= candidate_views(cands@) + plan_candidates(
                                evs.skip(idx as int + 1),
                                dom0.union(seen@),
                            ));
                        }
                    } else {
                        proof {
                            assert(plan_candidates(evs.skip(idx as int), pres) == plan_candidates(
                                evs.skip(idx as int + 1),
                                pres,
                            ));
                        }
                    }
                },
                Err(error) => {
                    let ghost fv = (entry.name@, error);
                    let ghost old_fails = fails@;
                    fails.push(EntryFailure { name: entry.name.clone(), error });
                    proof {
                        assert(plan_failures(evs.skip(idx as int)) == seq![fv] + plan_failures(
                            evs.skip(idx as int + 1),
                        ));
                        assert(entry_failure_views(fails@) =~= entry_failure_views(
                            old_fails,
                        ).push(fv));
                        assert(entry_failure_views(old_fails) + (seq![fv] + plan_failures(
                            evs.skip(idx as int + 1),
                        )) =~= entry_failure_views(fails@) + plan_failures(
                            evs.skip(idx as int + 1),
                        ));
                    }
                },
            }
            idx += 1;
        }
        proof {
            assert(evs.skip(idx as int) =~= Seq::<(Seq<char>, bool)>::empty());
            assert(candidate_views(cands@) + Seq::<(VolumeId, Seq<char>)>::empty()
                =~= candidate_views(cands@));
            assert(entry_failure_views(fails@) + Seq::<(Seq<char>, VolumeFileError)>::empty()
                =~= entry_failure_views(fails@));
        }
        (cands, fails)
    }

    /// Merge pass of a load: walks a planned candidate list with the
    /// outcome of each candidate's handle construction, registers a fresh
    /// handle per success through the registry's insert-if-absent, and
    /// reports each failure beside the count of successes.
    pub fn register_candidates(
        &mut self,
        needle_map_kind: NeedleMapType,
        cands: &Vec<Candidate>,
        outcomes: &Vec<Result<(), String>>,
    ) -> (r: (usize, Vec<VolumeFailure>))
        requires
            outcomes@.len() == cands@.len(),
            distinct_vids(candidate_views(cands@)),
            forall|i: int| 0 <= i < cands@.len() ==> !old(self).registry().contains_key(
                #[trigger] candidate_views(cands@)[i].0,
            ),
        ensures
            final(self).directory == old(self).directory,
            final(self).max_volume_count == old(self).max_volume_count,
            final(self).registry() == apply_outcomes(
                old(self).registry(),
                candidate_views(cands@),
                outcome_flags(outcomes@),
                old(self).directory@,
                needle_map_kind,
            ),
            r.0 == count_loaded(outcome_flags(outcomes@)),
            volume_failure_views(r.1@) == failure_views_of(candidate_views(cands@), outcomes@),
    {
        let ghost cvs = candidate_views(cands@);
        let ghost flags = outcome_flags(outcomes@);
        let ghost dir0 = old(self).directory@;
        let ghost target = apply_outcomes(
            old(self).registry(),
            cvs,
            flags,
            dir0,
            needle_map_kind,
        );
        let mut loaded: usize = 0;
        let mut vfails: Vec<VolumeFailure> = Vec::new();
        let mut i: usize = 0;
        proof {
            assert(cvs.skip(0) =~= cvs);
            assert(flags.skip(0) =~= flags);
            assert(outcomes@.skip(0) =~= outcomes@);
            assert(volume_failure_views(vfails@) + failure_views_of(cvs, outcomes@)
                =~= failure_views_of(cvs, outcomes@));
        }
        while i < cands.len()
            invariant
                i <= cands.len(),
                outcomes@.len() == cands@.len(),
                cvs == candidate_views(cands@),
                flags == outcome_flags(outcomes@),
                cvs.len() == cands@.len(),
                flags.len() == outcomes@.len(),
                distinct_vids(cvs),
                forall|j: int| i <= j < cvs.len() ==> !self.registry().contains_key(
                    #[trigger] cvs[j].0,
                ),
                self.directory == old(self).directory,
                self.max_volume_count == old(self).max_volume_count,
                dir0 == old(self).directory@,
                apply_outcomes(
                    self.registry(),
                    cvs.skip(i as int),
                    flags.skip(i as int),
                    dir0,
                    needle_map_kind,
                ) == target,
                loaded <= i,
                loaded as int + count_loaded(flags.skip(i as int)) == count_loaded(flags),
                volume_failure_views(vfails@) + failure_views_of(
                    cvs.skip(i as int),
                    outcomes@.skip(i as int),
                ) == failure_views_of(cvs, outcomes@),
            decreases cands.len() - i,
        {
            proof {
                assert(cvs.skip(i as int)[0] == cvs[i as int]);
                assert(flags.skip(i as int)[0] == flags[i as int]);
                assert(outcomes@.skip(i as int)[0] == outcomes@[i as int]);
                assert(cvs.skip(i as int).skip(1) =~= cvs.skip(i as int + 1));
                assert(flags.skip(i as int).skip(1) =~= flags.skip(i as int + 1));
                assert(outcomes@.skip(i as int).skip(1) =~= outcomes@.skip(i as int + 1));
            }
            match &outcomes[i] {
                Ok(_) => {
                    let c = &cands[i];
                    proof {
                        assert(c@ == cvs[i as int]);
                    }
                    let v = Volume::new(
                        self.directory.as_str(),
                        c.collection.as_str(),
                        c.vid,
                        needle_map_kind,
                        ReplicaPlacement::default(),
                        Ttl::default(),
                        0,
                    );
                    proof {
                        assert(v@ == fresh_volume(dir0, cvs[i as int].1, cvs[i as int].0,
                            needle_map_kind));
                    }
                    let inserted = self.try_register_volume(v);
                    proof {
                        assert(inserted);
                    }
                    loaded += 1;
                },
                Err(m) => {
                    let c = &cands[i];
                    let ghost fv = (c.vid, m@);
                    let ghost old_vfails = vfails@;
                    vfails.push(VolumeFailure { vid: c.vid, message: m.clone() });
                    proof {
                        assert(c@ == cvs[i as int]);
                        assert(failure_views_of(cvs.skip(i as int), outcomes@.skip(i as int))
                            == seq![fv] + failure_views_of(
                            cvs.skip(i as int + 1),
                            outcomes@.skip(i as int + 1),
                        ));
                        assert(volume_failure_views(vfails@) =~= volume_failure_views(
                            old_vfails,
                        ).push(fv));
                        assert(volume_failure_views(old_vfails) + (seq![fv] + failure_views_of(
                            cvs.skip(i as int + 1),
                            outcomes@.skip(i as int + 1),
                        )) =~= volume_failure_views(vfails@) + failure_views_of(
                            cvs.skip(i as int + 1),
                            outcomes@.skip(i as int + 1),
                        ));
                    }
                },
            }
            i += 1;
        }
        proof {
            assert(cvs.skip(i as int) =~= Seq::<(VolumeId, Seq<char>)>::empty());
            assert(flags.skip(i as int) =~= Seq::<bool>::empty());
            assert(outcomes@.skip(i as int) =~= Seq::<Result<(), String>>::empty());
            assert(volume_failure_views(vfails@) + Seq::<(VolumeId, Seq<char>)>::empty()
                =~= volume_failure_views(vfails@));
        }
        (loaded, vfails)
    }

    /// Sequential load pass over a directory listing. `outcomes` holds, per
    /// planned candidate in scan order, whether constructing that volume's
    /// handle from its on-disk state succeeded, or the failure message; the
    /// caller that performs the construction obtains the candidate order
    /// from `plan_load` on the same listing.
    ///
    /// Every loadable, not-yet-registered volume becomes a registry entry;
    /// every rejected entry and every failed construction is reported, and
    /// no failure aborts the pass. Already-registered identifiers are
    /// skipped untouched.
    pub fn load_existing_volumes(
        &mut self,
        needle_map_kind: NeedleMapType,
        entries: &Vec<DirEntryInfo>,
        outcomes: &Vec<Result<(), String>>,
    ) -> (report: LoadReport)
        requires
            outcomes@.len() == plan_candidates(
                entry_views(entries@),
                old(self).registry().dom(),
            ).len(),
        ensures
            final(self).directory == old(self).directory,
            final(self).max_volume_count == old(self).max_volume_count,
            final(self).registry() == apply_outcomes(
                old(self).registry(),
                plan_candidates(entry_views(entries@), old(self).registry().dom()),
                outcome_flags(outcomes@),
                old(self).directory@,
                needle_map_kind,
            ),
            report.loaded_count == count_loaded(outcome_flags(outcomes@)),
            entry_failure_views(report.entry_failures@) == plan_failures(entry_views(entries@)),
            volume_failure_views(report.volume_failures@) == failure_views_of(
                plan_candidates(entry_views(entries@), old(self).registry().dom()),
                outcomes@,
            ),
    {
        let (cands, entry_failures) = self.plan_load(entries);
        proof {
            lemma_plan_candidates_fresh(entry_views(entries@), self.registry().dom());
        }
        let (loaded_count, volume_failures) = self.register_candidates(
            needle_map_kind,
            &cands,
            outcomes,
        );
        LoadReport { loaded_count, entry_failures, volume_failures }
    }

    /// Merges per-worker shares of a planned candidate list into the
    /// registry, later shares first — the order in which workers that
    /// finish out of turn would hand in their results.
    #[verifier::rlimit(60)]
    fn merge_chunks_rev(
        &mut self,
        needle_map_kind: NeedleMapType,
        cands: &Vec<Candidate>,
        outcomes: &Vec<Result<(), String>>,
        from: usize,
        cs: usize,
    ) -> (r: (usize, Vec<VolumeFailure>))
        requires
            cs >= 1,
            outcomes@.len() == cands@.len(),
            from <= cands@.len(),
            distinct_vids(candidate_views(cands@).skip(from as int)),
            forall|i: int| from <= i < cands@.len() ==> !old(self).registry().contains_key(
                (#[trigger] candidate_views(cands@)[i]).0,
            ),
        ensures
            final(self).directory == old(self).directory,
            final(self).max_volume_count == old(self).max_volume_count,
            final(self).registry() == apply_outcomes(
                old(self).registry(),
                rev_concat(chunks_of(candidate_views(cands@).skip(from as int), cs as int)),
                rev_concat(chunks_of(outcome_flags(outcomes@).skip(from as int), cs as int)),
                old(self).directory@,
                needle_map_kind,
            ),
            r.0 == count_loaded(outcome_flags(outcomes@).skip(from as int)),
            r.0 <= cands@.len() - from,
            volume_failure_views(r.1@) == failure_views_of(
                rev_concat(chunks_of(candidate_views(cands@).skip(from as int), cs as int)),
                rev_concat(chunks_of(outcomes@.skip(from as int), cs as int)),
            ),
        decreases cands@.len() - from,
    {
        let ghost cvs = candidate_views(cands@);
        let ghost flags = outcome_flags(outcomes@);
        let ghost dir0 = old(self).directory@;
        let ghost reg0 = old(self).registry();
        if from == cands.len() {
            proof {
                assert(cvs.skip(from as int) =~= Seq::<(VolumeId, Seq<char>)>::empty());
                assert(flags.skip(from as int) =~= Seq::<bool>::empty());
                assert(outcomes@.skip(from as int) =~= Seq::<Result<(), String>>::empty());
                assert(chunks_of(Seq::<(VolumeId, Seq<char>)>::empty(), cs as int) == Seq::<
                    Seq<(VolumeId, Seq<char>)>,
                >::empty());
                assert(chunks_of(Seq::<bool>::empty(), cs as int) == Seq::<Seq<bool>>::empty());
                assert(chunks_of(Seq::<Result<(), String>>::empty(), cs as int) == Seq::<
                    Seq<Result<(), String>>,
                >::empty());
                assert(rev_concat(Seq::<Seq<(VolumeId, Seq<char>)>>::empty()) == Seq::<
                    (VolumeId, Seq<char>),
                >::empty());
                assert(rev_concat(Seq::<Seq<bool>>::empty()) == Seq::<bool>::empty());
                assert(rev_concat(Seq::<Seq<Result<(), String>>>::empty()) == Seq::<
                    Result<(), String>,
                >::empty());
                assert(volume_failure_views(Seq::<VolumeFailure>::empty()) =~= Seq::<
                    (VolumeId, Seq<char>),
                >::empty());
            }
            (0, Vec::new())
        } else {
            let remaining = cands.len() - from;
            let clen = if remaining <= cs {
                remaining
            } else {
                cs
            };
            let mid = from + clen;
            proof {
                assert forall|i: int, j: int|
                    0 <= i < j < cvs.skip(mid as int).len() implies (#[trigger] cvs.skip(
                    mid as int,
                )[i]).0 != (#[trigger] cvs.skip(mid as int)[j]).0 by {
                    assert(cvs.skip(mid as int)[i] == cvs.skip(from as int)[mid - from + i]);
                    assert(cvs.skip(mid as int)[j] == cvs.skip(from as int)[mid - from + j]);
                }
            }
            let (cnt_rest, mut vfails) = self.merge_chunks_rev(
                needle_map_kind,
                cands,
                outcomes,
                mid,
                cs,
            );
            let ghost rb = rev_concat(chunks_of(cvs.skip(mid as int), cs as int));
            let ghost rfb = rev_concat(chunks_of(flags.skip(mid as int), cs as int));
            let ghost rob = rev_concat(chunks_of(outcomes@.skip(mid as int), cs as int));
            let chunk_c = clone_candidate_range(cands, from, mid);
            let chunk_o = clone_outcome_range(outcomes, from, mid);
            let ghost chv = candidate_views(chunk_c@);
            proof {
                // the chunk's views are the matching subranges
                assert forall|i: int| 0 <= i < chv.len() implies chv[i] == cvs[from + i] by {
                    assert(chunk_c@[i] == cands@[from + i]);
                    assert(cvs[from + i] == cands@[from + i]@);
                }
                assert(chv =~= cvs.subrange(from as int, mid as int));
                assert forall|i: int|
                    0 <= i < outcome_flags(chunk_o@).len() implies outcome_flags(chunk_o@)[i]
                    == flags[from + i] by {
                    assert(chunk_o@[i] == outcomes@[from + i]);
                    assert(flags[from + i] == (outcomes@[from + i] is Ok));
                }
                assert(outcome_flags(chunk_o@) =~= flags.subrange(from as int, mid as int));
                assert(chunk_o@ =~= outcomes@.subrange(from as int, mid as int));
                // the chunk's identifiers are distinct
                assert forall|i: int, j: int| 0 <= i < j < chv.len() implies (#[trigger] chv[i]).0
                    != (#[trigger] chv[j]).0 by {
                    assert(chv[i] == cvs.skip(from as int)[i]);
                    assert(chv[j] == cvs.skip(from as int)[j]);
                }
                // none of the chunk's identifiers was registered by the later shares
                lemma_rev_chunks_len(cvs.skip(mid as int), cs as int);
                lemma_rev_chunks_len(flags.skip(mid as int), cs as int);
                assert(rb.len() == rfb.len());
                assert forall|i: int| 0 <= i < chv.len() implies !self.registry().contains_key(
                    (#[trigger] chv[i]).0,
                ) by {
                    let vid = chv[i].0;
                    assert(cvs.skip(from as int)[i].0 == vid);
                    assert forall|j: int|
                        0 <= j < cvs.skip(mid as int).len() implies (#[trigger] cvs.skip(
                        mid as int,
                    )[j]).0 != vid by {
                        assert(cvs.skip(mid as int)[j] == cvs.skip(from as int)[mid - from + j]);
                    }
                    lemma_rev_chunks_no_vid(cvs.skip(mid as int), cs as int, vid);
                    assert(!reg0.contains_key(vid)) by {
                        assert(cvs[from + i].0 == vid);
                    }
                    lemma_apply_no_new_key(reg0, rb, rfb, dir0, needle_map_kind, vid);
                }
            }
            let (cnt0, mut vf0) = self.register_candidates(needle_map_kind, &chunk_c, &chunk_o);
            let ghost vrest = vfails@;
            let ghost v0 = vf0@;
            vfails.append(&mut vf0);
            proof {
                let tail = cvs.skip(from as int);
                let ftail = flags.skip(from as int);
                let otail = outcomes@.skip(from as int);
                // decompose the chunk lists of the whole share
                assert(tail.len() == remaining);
                if remaining <= cs {
                    assert(chunks_of(tail, cs as int) == seq![tail]);
                    assert(chunks_of(ftail, cs as int) == seq![ftail]);
                    assert(chunks_of(otail, cs as int) == seq![otail]);
                    assert(chunks_of(tail, cs as int).skip(1) =~= Seq::<
                        Seq<(VolumeId, Seq<char>)>,
                    >::empty());
                    assert(chunks_of(ftail, cs as int).skip(1) =~= Seq::<Seq<bool>>::empty());
                    assert(chunks_of(otail, cs as int).skip(1) =~= Seq::<
                        Seq<Result<(), String>>,
                    >::empty());
                    assert(rev_concat(Seq::<Seq<(VolumeId, Seq<char>)>>::empty()) == Seq::<
                        (VolumeId, Seq<char>),
                    >::empty());
                    assert(rev_concat(Seq::<Seq<bool>>::empty()) == Seq::<bool>::empty());
                    assert(rev_concat(Seq::<Seq<Result<(), String>>>::empty()) == Seq::<
                        Result<(), String>,
                    >::empty());
                    assert(rev_concat(chunks_of(tail, cs as int)) == rev_concat(
                        chunks_of(tail, cs as int).skip(1),
                    ) + chunks_of(tail, cs as int)[0]);
                    assert(rev_concat(chunks_of(ftail, cs as int)) == rev_concat(
                        chunks_of(ftail, cs as int).skip(1),
                    ) + chunks_of(ftail, cs as int)[0]);
                    assert(rev_concat(chunks_of(otail, cs as int)) == rev_concat(
                        chunks_of(otail, cs as int).skip(1),
                    ) + chunks_of(otail, cs as int)[0]);
                    assert(cvs.skip(mid as int) =~= Seq::<(VolumeId, Seq<char>)>::empty());
                    assert(flags.skip(mid as int) =~= Seq::<bool>::empty());
                    assert(outcomes@.skip(mid as int) =~= Seq::<Result<(), String>>::empty());
                    assert(chunks_of(Seq::<(VolumeId, Seq<char>)>::empty(), cs as int) == Seq::<
                        Seq<(VolumeId, Seq<char>)>,
                    >::empty());
                    assert(chunks_of(Seq::<bool>::empty(), cs as int) == Seq::<
                        Seq<bool>,
                    >::empty());
                    assert(chunks_of(Seq::<Result<(), String>>::empty(), cs as int) == Seq::<
                        Seq<Result<(), String>>,
                    >::empty());
                } else {
                    assert(chunks_of(tail, cs as int) == seq![tail.take(cs as int)] + chunks_of(
                        tail.skip(cs as int),
                        cs as int,
                    ));
                    assert(chunks_of(ftail, cs as int) == seq![ftail.take(cs as int)] + chunks_of(
                        ftail.skip(cs as int),
                        cs as int,
                    ));
                    assert(chunks_of(otail, cs as int) == seq![otail.take(cs as int)] + chunks_of(
                        otail.skip(cs as int),
                        cs as int,
                    ));
                    assert(tail.skip(cs as int) =~= cvs.skip(mid as int));
                    assert(ftail.skip(cs as int) =~= flags.skip(mid as int));
                    assert(otail.skip(cs as int) =~= outcomes@.skip(mid as int));
                    assert(chunks_of(tail, cs as int).skip(1) =~= chunks_of(
                        cvs.skip(mid as int),
                        cs as int,
                    ));
                    assert(chunks_of(ftail, cs as int).skip(1) =~= chunks_of(
                        flags.skip(mid as int),
                        cs as int,
                    ));
                    assert(chunks_of(otail, cs as int).skip(1) =~= chunks_of(
                        outcomes@.skip(mid as int),
                        cs as int,
                    ));
                    assert(rev_concat(chunks_of(tail, cs as int)) == rev_concat(
                        chunks_of(tail, cs as int).skip(1),
                    ) + chunks_of(tail, cs as int)[0]);
                    assert(rev_concat(chunks_of(ftail, cs as int)) == rev_concat(
                        chunks_of(ftail, cs as int).skip(1),
                    ) + chunks_of(ftail, cs as int)[0]);
                    assert(rev_concat(chunks_of(otail, cs as int)) == rev_concat(
                        chunks_of(otail, cs as int).skip(1),
                    ) + chunks_of(otail, cs as int)[0]);
                }
                assert(tail.take(clen as int) =~= cvs.subrange(from as int, mid as int));
                assert(ftail.take(clen as int) =~= flags.subrange(from as int, mid as int));
                assert(otail.take(clen as int) =~= outcomes@.subrange(from as int, mid as int));
                assert(rev_concat(chunks_of(tail, cs as int)) == rb + cvs.subrange(
                    from as int,
                    mid as int,
                ));
                assert(rev_concat(chunks_of(ftail, cs as int)) == rfb + flags.subrange(
                    from as int,
                    mid as int,
                ));
                assert(rev_concat(chunks_of(otail, cs as int)) == rob + outcomes@.subrange(
                    from as int,
                    mid as int,
                ));
                // registry: compose the two merge steps
                lemma_apply_append(
                    reg0,
                    rb,
                    rfb,
                    cvs.subrange(from as int, mid as int),
                    flags.subrange(from as int, mid as int),
                    dir0,
                    needle_map_kind,
                );
                // count: the share's successes split at the chunk boundary
                assert(ftail =~= flags.subrange(from as int, mid as int) + flags.skip(
                    mid as int,
                ));
                lemma_count_loaded_append(
                    flags.subrange(from as int, mid as int),
                    flags.skip(mid as int),
                );
                lemma_count_loaded_le(flags.subrange(from as int, mid as int));
                lemma_count_loaded_le(flags.skip(mid as int));
                // failures: later shares' failures, then this chunk's
                lemma_rev_chunks_len(cvs.skip(mid as int), cs as int);
                lemma_rev_chunks_len(outcomes@.skip(mid as int), cs as int);
                lemma_failure_views_append(
                    rb,
                    rob,
                    cvs.subrange(from as int, mid as int),
                    outcomes@.subrange(from as int, mid as int),
                );
                assert(volume_failure_views(vfails@) =~= volume_failure_views(vrest)
                    + volume_failure_views(v0));
            }
            (cnt_rest + cnt0, vfails)
        }
    }

    /// Concurrent load pass over a directory listing: the same registry
    /// contract as the sequential pass, for any worker width. The planned
    /// candidates are split into per-worker shares of `chunk_len`
    /// candidates each; `outcomes` holds each candidate's construction
    /// outcome in scan order, as `load_existing_volumes` takes it. The
    /// shares' results are merged later shares first — the order workers
    /// finishing out of turn would produce — and the registry still ends
    /// exactly as after a sequential pass, which is the order-independence
    /// that `lemma_apply_rev_chunks` states. Only the order of the
    /// reported construction failures reflects the merge order.
    pub fn concurrent_loading_volumes(
        &mut self,
        needle_map_kind: NeedleMapType,
        concurrency: usize,
        entries: &Vec<DirEntryInfo>,
        outcomes: &Vec<Result<(), String>>,
    ) -> (report: LoadReport)
        requires
            outcomes@.len() == plan_candidates(
                entry_views(entries@),
                old(self).registry().dom(),
            ).len(),
        ensures
            final(self).directory == old(self).directory,
            final(self).max_volume_count == old(self).max_volume_count,
            final(self).registry() == apply_outcomes(
                old(self).registry(),
                plan_candidates(entry_views(entries@), old(self).registry().dom()),
                outcome_flags(outcomes@),
                old(self).directory@,
                needle_map_kind,
            ),
            report.loaded_count == count_loaded(outcome_flags(outcomes@)),
            entry_failure_views(report.entry_failures@) == plan_failures(entry_views(entries@)),
            ({
                let cands = plan_candidates(entry_views(entries@), old(self).registry().dom());
                let cs = chunk_len(cands.len() as int, clamped_width(concurrency as int));
                volume_failure_views(report.volume_failures@) == failure_views_of(
                    rev_concat(chunks_of(cands, cs)),
                    rev_concat(chunks_of(outcomes@, cs)),
                )
            }),
    {
        let ghost reg0 = old(self).registry();
        let ghost dir0 = old(self).directory@;
        let (cands, entry_failures) = self.plan_load(entries);
        let ghost cvs = candidate_views(cands@);
        let ghost flags = outcome_flags(outcomes@);
        proof {
            lemma_plan_candidates_fresh(entry_views(entries@), reg0.dom());
        }
        let width = if concurrency < 1 {
            1
        } else {
            concurrency
        };
        let cs = if cands.len() == 0 {
            1
        } else {
            let q = (cands.len() - 1) / width;
            proof {
                assert(q <= cands@.len() - 1) by (nonlinear_arith)
                    requires
                        width >= 1,
                        cands@.len() >= 1,
                        q == ((cands@.len() - 1) as int) / (width as int),
                ;
            }
            q + 1
        };
        proof {
            assert(cs as int == chunk_len(cvs.len() as int, clamped_width(concurrency as int)));
            assert(cvs.skip(0) =~= cvs);
            assert(flags.skip(0) =~= flags);
            assert(outcomes@.skip(0) =~= outcomes@);
        }
        let (loaded_count, volume_failures) = self.merge_chunks_rev(
            needle_map_kind,
            &cands,
            outcomes,
            0,
            cs,
        );
        proof {
            lemma_apply_rev_chunks(reg0, cvs, flags, dir0, needle_map_kind, cs as int);
        }
        LoadReport { loaded_count, entry_failures, volume_failures }
    }
}

} // verus!
