//! The bundle processor: resolves a bundle descriptor into a wired operator
//! graph and drives it through the staged lifecycle.
//!
//! Operators stand in one table, roots first (in name order), then the
//! remaining operators in a topological order derived from which transform
//! produces and which consume each channel.  Every receiver points strictly
//! forward in the table, so depth-first delivery terminates; the call log of
//! one `process` run is given exactly by `spec_bundle_log`.

use crate::errors::HarnessError;
use crate::lex::{contains_string, lemma_lex_antisym, lemma_lex_total_ordering, lex_leq_fn, sort_strings, views_of};
use crate::operators::{
    create_operator,
    finish_entry,
    mk_finish_entry,
    mk_start_entry,
    process_entry,
    start_entry,
    op_finish_log,
    op_process_log,
    op_start_log,
    receiver_views,
    json_string_list,
    spec_operator,
    spec_urn_supported,
    Operator,
    OperatorView,
    Receiver,
};
use crate::proto;
use vstd::prelude::*;

verus! {

/// The views of a table of operators.
pub open spec fn op_views(ops: Seq<Operator>) -> Seq<OperatorView> {
    ops.map_values(|o: Operator| o@)
}

/// Every consumer index lies strictly between `lo` and `n`.
pub open spec fn cons_ok(cons: Seq<usize>, lo: int, n: int) -> bool {
    forall|k: int| 0 <= k < cons.len() ==> lo < #[trigger] cons[k] < n
}

/// Every receiver's consumers lie strictly between `lo` and `n`.
pub open spec fn recs_ok(recs: Seq<Seq<usize>>, lo: int, n: int) -> bool {
    forall|r: int| 0 <= r < recs.len() ==> cons_ok(#[trigger] recs[r], lo, n)
}

/// Receivers point strictly forward in the table: delivery only ever moves to
/// higher indices, which bounds the depth of the fan-out recursion.
pub open spec fn ops_wf(ops: Seq<OperatorView>) -> bool {
    forall|i: int| 0 <= i < ops.len() ==> recs_ok(#[trigger] ops[i].receivers, i, ops.len() as int)
}

/// Log of one process call on operator `j`: the operator's own line, then
/// everything its receivers deliver downstream, depth first.
pub open spec fn spec_element_log(ops: Seq<OperatorView>, j: int, elem: Seq<char>) -> Seq<
    Seq<char>,
>
    decreases ops.len() - j, 0int, 0int,
        when 0 <= j < ops.len() && ops_wf(ops)
{
    op_process_log(ops[j], elem) + spec_emit_log(ops, ops[j].receivers, j, elem)
}

/// Log of emitting one element on a list of receivers, in order.
pub open spec fn spec_emit_log(
    ops: Seq<OperatorView>,
    recs: Seq<Seq<usize>>,
    lo: int,
    elem: Seq<char>,
) -> Seq<Seq<char>>
    decreases ops.len() - lo - 1, 2int, recs.len(),
        when 0 <= lo < ops.len() && ops_wf(ops) && recs_ok(recs, lo, ops.len() as int)
{
    if recs.len() == 0 {
        Seq::empty()
    } else {
        spec_emit_log(ops, recs.drop_last(), lo, elem) + spec_fanout_log(
            ops,
            recs.last(),
            lo,
            elem,
        )
    }
}

/// Log of one receiver's fan-out: each consumer processes the element in
/// registration order, each consumer's delivery completing before the next
/// consumer is invoked.
pub open spec fn spec_fanout_log(
    ops: Seq<OperatorView>,
    cons: Seq<usize>,
    lo: int,
    elem: Seq<char>,
) -> Seq<Seq<char>>
    decreases ops.len() - lo - 1, 1int, cons.len(),
        when 0 <= lo < ops.len() && ops_wf(ops) && cons_ok(cons, lo, ops.len() as int)
{
    if cons.len() == 0 {
        Seq::empty()
    } else {
        spec_fanout_log(ops, cons.drop_last(), lo, elem) + spec_element_log(
            ops,
            cons.last() as int,
            elem,
        )
    }
}

/// Start-phase log from index `ops.len() - 1` down to `i`.
pub open spec fn spec_starts_from(ops: Seq<OperatorView>, i: int) -> Seq<Seq<char>>
    decreases ops.len() - i,
        when 0 <= i <= ops.len()
{
    if i >= ops.len() {
        Seq::empty()
    } else {
        spec_starts_from(ops, i + 1) + op_start_log(ops[i])
    }
}

/// Drive-phase log of root `i`: its elements emitted in order, each element's
/// depth-first delivery completing before the next element is injected.
pub open spec fn spec_elements_drive(
    ops: Seq<OperatorView>,
    i: int,
    elems: Seq<Seq<char>>,
) -> Seq<Seq<char>>
    decreases elems.len(),
        when 0 <= i < ops.len() && ops_wf(ops)
{
    if elems.len() == 0 {
        Seq::empty()
    } else {
        spec_elements_drive(ops, i, elems.drop_last()) + spec_emit_log(
            ops,
            ops[i].receivers,
            i,
            elems.last(),
        )
    }
}

/// Drive-phase log of the first `i` roots, in table order.
pub open spec fn spec_drive_upto(ops: Seq<OperatorView>, i: int) -> Seq<Seq<char>>
    decreases i,
        when 0 <= i <= ops.len()
{
    if i <= 0 {
        Seq::empty()
    } else {
        spec_drive_upto(ops, i - 1) + spec_elements_drive(ops, i - 1, ops[i - 1].elements)
    }
}

/// Finish-phase log from index `r` up to (excluding) `i`.
pub open spec fn spec_finishes_upto(ops: Seq<OperatorView>, r: int, i: int) -> Seq<Seq<char>>
    decreases i - r,
        when 0 <= r <= i <= ops.len()
{
    if i <= r {
        Seq::empty()
    } else {
        spec_finishes_upto(ops, r, i - 1) + op_finish_log(ops[i - 1])
    }
}

/// The whole call log of one bundle run: start phase over the non-roots in
/// reverse table order, drive phase over the roots in table order, finish
/// phase over the non-roots in forward table order.
pub open spec fn spec_bundle_log(ops: Seq<OperatorView>, r: int) -> Seq<Seq<char>> {
    spec_starts_from(ops, r) + spec_drive_upto(ops, r) + spec_finishes_upto(
        ops,
        r,
        ops.len() as int,
    )
}


/// The name of each transform entry, in entry order.
pub open spec fn entry_names(entries: Seq<(String, proto::PTransform)>) -> Seq<Seq<char>> {
    entries.map_values(|p: (String, proto::PTransform)| p.0@)
}

/// The entry names in canonical (sorted) order: graph construction works on
/// this order, so the graph does not depend on the order the descriptor
/// presented its entries in.
pub open spec fn canon_names(entries: Seq<(String, proto::PTransform)>) -> Seq<Seq<char>> {
    entry_names(entries).sort_by(lex_leq_fn())
}

pub open spec fn names_unique(names: Seq<Seq<char>>) -> bool {
    forall|i: int, j: int| 0 <= i < j < names.len() ==> names[i] != names[j]
}

pub open spec fn has_entry(entries: Seq<(String, proto::PTransform)>, n: Seq<char>) -> bool {
    exists|i: int| 0 <= i < entries.len() && #[trigger] entries[i].0@ == n
}

/// The transform entered under a name (meaningful when names are unique).
pub open spec fn entry_of(entries: Seq<(String, proto::PTransform)>, n: Seq<char>) -> proto::PTransform {
    entries[choose|i: int| 0 <= i < entries.len() && #[trigger] entries[i].0@ == n].1
}

/// The URN of a transform; empty when the entry carries no spec.
pub open spec fn urn_of(t: proto::PTransform) -> Seq<char> {
    if t.spec is Some {
        t.spec->Some_0.urn@
    } else {
        Seq::empty()
    }
}

pub open spec fn payload_of(t: proto::PTransform) -> Seq<u8> {
    if t.spec is Some {
        t.spec->Some_0.payload@
    } else {
        Seq::empty()
    }
}

/// The channels a transform consumes, in port-map order.
pub open spec fn input_chans(t: proto::PTransform) -> Seq<Seq<char>> {
    t.inputs@.map_values(|p: (String, String)| p.1@)
}

/// The channels a transform produces, in port-map order.
pub open spec fn output_chans(t: proto::PTransform) -> Seq<Seq<char>> {
    t.outputs@.map_values(|p: (String, String)| p.1@)
}

/// A transform is a root when its URN is in the caller's root set.
pub open spec fn is_root_name(
    entries: Seq<(String, proto::PTransform)>,
    roots: Seq<Seq<char>>,
    n: Seq<char>,
) -> bool {
    roots.contains(urn_of(entry_of(entries, n)))
}

pub open spec fn consumes(
    entries: Seq<(String, proto::PTransform)>,
    n: Seq<char>,
    chan: Seq<char>,
) -> bool {
    input_chans(entry_of(entries, n)).contains(chan)
}

pub open spec fn produces(
    entries: Seq<(String, proto::PTransform)>,
    n: Seq<char>,
    chan: Seq<char>,
) -> bool {
    output_chans(entry_of(entries, n)).contains(chan)
}

/// The names among the first `i` of `names` that are (resp. are not) roots,
/// keeping their order.
pub open spec fn filter_roots(
    entries: Seq<(String, proto::PTransform)>,
    roots: Seq<Seq<char>>,
    names: Seq<Seq<char>>,
    want_root: bool,
    i: int,
) -> Seq<Seq<char>>
    decreases i,
    when 0 <= i <= names.len()
{
    if i <= 0 {
        Seq::empty()
    } else {
        filter_roots(entries, roots, names, want_root, i - 1) + (if is_root_name(
            entries,
            roots,
            names[i - 1],
        ) == want_root {
            seq![names[i - 1]]
        } else {
            Seq::empty()
        })
    }
}

/// Every root transform consumes nothing: roots originate data.
pub open spec fn roots_have_no_inputs(
    entries: Seq<(String, proto::PTransform)>,
    roots: Seq<Seq<char>>,
    names: Seq<Seq<char>>,
) -> bool {
    forall|i: int|
        0 <= i < names.len() && is_root_name(entries, roots, #[trigger] names[i]) ==> input_chans(
            entry_of(entries, names[i]),
        ).len() == 0
}

/// All output channels of the first `i` names, flattened in order.
pub open spec fn flat_output_chans(
    entries: Seq<(String, proto::PTransform)>,
    names: Seq<Seq<char>>,
    i: int,
) -> Seq<Seq<char>>
    decreases i,
    when 0 <= i <= names.len()
{
    if i <= 0 {
        Seq::empty()
    } else {
        flat_output_chans(entries, names, i - 1) + output_chans(entry_of(entries, names[i - 1]))
    }
}

pub open spec fn seq_has_dup(s: Seq<Seq<char>>) -> bool {
    exists|i: int, j: int| 0 <= i < j < s.len() && s[i] == s[j]
}

/// Every consumed channel has a producer.
pub open spec fn all_inputs_produced(
    entries: Seq<(String, proto::PTransform)>,
    names: Seq<Seq<char>>,
) -> bool {
    forall|i: int, a: int|
        0 <= i < names.len() && 0 <= a < input_chans(entry_of(entries, names[i])).len()
            ==> flat_output_chans(entries, names, names.len() as int).contains(
            #[trigger] input_chans(entry_of(entries, names[i]))[a],
        )
}

/// Some already-placed transform produces the channel.
pub open spec fn producer_placed(
    entries: Seq<(String, proto::PTransform)>,
    placed: Seq<Seq<char>>,
    chan: Seq<char>,
) -> bool {
    exists|p: int| 0 <= p < placed.len() && produces(entries, #[trigger] placed[p], chan)
}

/// A transform may be placed once every channel it consumes has its producer
/// placed.
pub open spec fn eligible(
    entries: Seq<(String, proto::PTransform)>,
    placed: Seq<Seq<char>>,
    n: Seq<char>,
) -> bool {
    forall|a: int|
        0 <= a < input_chans(entry_of(entries, n)).len() ==> producer_placed(
            entries,
            placed,
            #[trigger] input_chans(entry_of(entries, n))[a],
        )
}

/// The position of the first eligible name in `rem`, or `rem.len()` if none.
pub open spec fn first_eligible_idx(
    entries: Seq<(String, proto::PTransform)>,
    placed: Seq<Seq<char>>,
    rem: Seq<Seq<char>>,
) -> int
    decreases rem.len(),
{
    if rem.len() == 0 {
        0
    } else if eligible(entries, placed, rem[0]) {
        0
    } else {
        1 + first_eligible_idx(entries, placed, rem.drop_first())
    }
}

/// The dependency-respecting order of the remaining names: repeatedly place
/// the first (least, since `rem` is kept sorted) eligible name.  `None` when
/// some names can never be placed (a dependency cycle).
pub open spec fn spec_topo(
    entries: Seq<(String, proto::PTransform)>,
    placed: Seq<Seq<char>>,
    rem: Seq<Seq<char>>,
) -> Option<Seq<Seq<char>>>
    decreases rem.len(),
{
    if rem.len() == 0 {
        Some(Seq::empty())
    } else {
        let fi = first_eligible_idx(entries, placed, rem);
        if fi < 0 || fi >= rem.len() {
            None
        } else {
            match spec_topo(entries, placed.push(rem[fi]), rem.remove(fi)) {
                None => None,
                Some(rest) => Some(seq![rem[fi]] + rest),
            }
        }
    }
}

/// The table indices, among the first `j` of `order`, of the operators that
/// consume the channel, in increasing order.
pub open spec fn consumer_indices(
    entries: Seq<(String, proto::PTransform)>,
    order: Seq<Seq<char>>,
    chan: Seq<char>,
    j: int,
) -> Seq<usize>
    decreases j,
    when 0 <= j <= order.len()
{
    if j <= 0 {
        Seq::empty()
    } else {
        consumer_indices(entries, order, chan, j - 1) + (if consumes(
            entries,
            order[j - 1],
            chan,
        ) {
            seq![(j - 1) as usize]
        } else {
            Seq::empty()
        })
    }
}

/// The receivers wired for the named operator: one per output channel, each
/// fanning out to every consumer of that channel in table order.
pub open spec fn spec_receivers(
    entries: Seq<(String, proto::PTransform)>,
    order: Seq<Seq<char>>,
    n: Seq<char>,
) -> Seq<Seq<usize>> {
    Seq::new(
        output_chans(entry_of(entries, n)).len(),
        |a: int| consumer_indices(entries, order, output_chans(entry_of(entries, n))[a], order.len() as int),
    )
}

/// The operator standing at table position `i`.
pub open spec fn spec_op_at(
    entries: Seq<(String, proto::PTransform)>,
    order: Seq<Seq<char>>,
    i: int,
) -> OperatorView {
    spec_operator(
        order[i],
        urn_of(entry_of(entries, order[i])),
        payload_of(entry_of(entries, order[i])),
        spec_receivers(entries, order, order[i]),
    )
}

/// The descriptor's shape is acceptable: unique names, roots without inputs,
/// one producer per channel, every consumed channel produced, and no
/// dependency cycle.  Shape problems are reported before an unsupported URN.
pub open spec fn spec_shape_ok(
    entries: Seq<(String, proto::PTransform)>,
    roots: Seq<Seq<char>>,
) -> bool {
    let cn = canon_names(entries);
    &&& names_unique(cn)
    &&& roots_have_no_inputs(entries, roots, cn)
    &&& !seq_has_dup(flat_output_chans(entries, cn, cn.len() as int))
    &&& all_inputs_produced(entries, cn)
    &&& spec_topo(
        entries,
        filter_roots(entries, roots, cn, true, cn.len() as int),
        filter_roots(entries, roots, cn, false, cn.len() as int),
    ) is Some
}

/// Some entry's transform URN has no operator variant.
pub open spec fn some_urn_unsupported(entries: Seq<(String, proto::PTransform)>) -> bool {
    exists|n: Seq<char>|
        #[trigger] has_entry(entries, n) && !spec_urn_supported(urn_of(entry_of(entries, n)))
}

/// Every transform's operator can be built: its URN is supported, and a
/// create payload decodes.
pub open spec fn all_ops_buildable(
    entries: Seq<(String, proto::PTransform)>,
    names: Seq<Seq<char>>,
) -> bool {
    forall|i: int|
        0 <= i < names.len() ==> spec_urn_supported(
            urn_of(entry_of(entries, #[trigger] names[i])),
        ) && (urn_of(entry_of(entries, names[i])) == crate::urns::CREATE_URN@
            ==> json_string_list(payload_of(entry_of(entries, names[i]))) is Some)
}

/// Every wired receiver points strictly forward from its operator.
pub open spec fn order_wired_forward(
    entries: Seq<(String, proto::PTransform)>,
    order: Seq<Seq<char>>,
) -> bool {
    forall|i: int|
        0 <= i < order.len() ==> recs_ok(
            spec_receivers(entries, order, #[trigger] order[i]),
            i,
            order.len() as int,
        )
}

/// What graph construction yields for a descriptor: the operator table and
/// the number of roots, or nothing when the descriptor is rejected.  The
/// result is a function of the entries' canonical order, not of the order
/// they were presented in.
pub open spec fn spec_build(
    entries: Seq<(String, proto::PTransform)>,
    roots: Seq<Seq<char>>,
) -> Option<(Seq<OperatorView>, int)> {
    let cn = canon_names(entries);
    if !names_unique(cn) {
        None
    } else if !roots_have_no_inputs(entries, roots, cn) {
        None
    } else if seq_has_dup(flat_output_chans(entries, cn, cn.len() as int)) {
        None
    } else if !all_inputs_produced(entries, cn) {
        None
    } else {
        let rs = filter_roots(entries, roots, cn, true, cn.len() as int);
        let nrs = filter_roots(entries, roots, cn, false, cn.len() as int);
        match spec_topo(entries, rs, nrs) {
            None => None,
            Some(t) => {
                let order = rs + t;
                if !all_ops_buildable(entries, order) {
                    None
                } else if !order_wired_forward(entries, order) {
                    None
                } else {
                    Some((Seq::new(order.len(), |i: int| spec_op_at(entries, order, i)), rs.len() as int))
                }
            },
        }
    }
}

/// With unique canonical names, the entry list itself has no repeated name.
proof fn lemma_entries_names_distinct(entries: Seq<(String, proto::PTransform)>)
    requires
        names_unique(canon_names(entries)),
    ensures
        forall|i: int, j: int|
            0 <= i < j < entries.len() ==> entries[i].0@ != entries[j].0@,
{
    broadcast use vstd::seq_lib::group_to_multiset_ensures;

    let names = entry_names(entries);
    let cn = canon_names(entries);
    lemma_lex_total_ordering();
    names.lemma_sort_by_ensures(lex_leq_fn());
    assert(cn.to_multiset() == names.to_multiset());
    assert forall|i: int, j: int| 0 <= i < j < entries.len() implies entries[i].0@
        != entries[j].0@ by {
        if entries[i].0@ == entries[j].0@ {
            let x = entries[i].0@;
            assert(names[i] == x && names[j] == x);
            let ni = names.remove(i);
            assert(ni.to_multiset() == names.to_multiset().remove(x));
            assert(ni[j - 1] == x);
            assert(ni.contains(x));
            assert(ni.to_multiset().contains(x));
            assert(names.to_multiset().count(x) >= 2);
            // but a unique-name sequence holds each name at most once
            assert(cn.contains(x));
            let k = choose|k: int| 0 <= k < cn.len() && cn[k] == x;
            let ck = cn.remove(k);
            assert(ck.to_multiset() == cn.to_multiset().remove(x));
            assert forall|q: int| 0 <= q < ck.len() implies ck[q] != x by {
                if q < k {
                    assert(ck[q] == cn[q]);
                } else {
                    assert(ck[q] == cn[q + 1]);
                }
            }
            assert(!ck.contains(x));
            assert(!ck.to_multiset().contains(x));
            assert(ck.to_multiset().count(x) == 0);
            assert(cn.to_multiset().count(x) <= 1);
        }
    }
}

/// A name in the canonical order has an entry.
proof fn lemma_canon_has_entry(entries: Seq<(String, proto::PTransform)>, k: int)
    requires
        0 <= k < canon_names(entries).len(),
    ensures
        has_entry(entries, canon_names(entries)[k]),
{
    broadcast use vstd::seq_lib::group_to_multiset_ensures;

    let names = entry_names(entries);
    let cn = canon_names(entries);
    lemma_lex_total_ordering();
    names.lemma_sort_by_ensures(lex_leq_fn());
    assert(cn.contains(cn[k]));
    assert(cn.to_multiset().contains(cn[k]));
    assert(names.to_multiset().contains(cn[k]));
    assert(names.contains(cn[k]));
    let i = choose|i: int| 0 <= i < names.len() && names[i] == cn[k];
    assert(entries[i].0@ == cn[k]);
}

/// The transform entered under a name, when entry names are unique.
fn find_transform<'a>(
    entries: &'a Vec<(String, proto::PTransform)>,
    name: &String,
) -> (r: Option<&'a proto::PTransform>)
    requires
        forall|i: int, j: int|
            0 <= i < j < entries@.len() ==> entries@[i].0@ != entries@[j].0@,
    ensures
        match r {
            Some(t) => has_entry(entries@, name@) && *t == entry_of(entries@, name@),
            None => !has_entry(entries@, name@),
        },
{
    let mut i: usize = 0;
    while i < entries.len()
        invariant
            0 <= i <= entries@.len(),
            forall|i2: int, j2: int|
                0 <= i2 < j2 < entries@.len() ==> entries@[i2].0@ != entries@[j2].0@,
            forall|j: int| 0 <= j < i ==> entries@[j].0@ != name@,
        decreases entries@.len() - i,
    {
        if entries[i].0.eq(name) {
            proof {
                let c = choose|c: int|
                    0 <= c < entries@.len() && #[trigger] entries@[c].0@ == name@;
                assert(c == i);
            }
            return Some(&entries[i].1);
        }
        i = i + 1;
    }
    None
}

/// The transform's URN; empty when it has no spec.
fn urn_of_exec(t: &proto::PTransform) -> (r: String)
    ensures
        r@ == urn_of(*t),
{
    match &t.spec {
        Some(fs) => fs.urn.clone(),
        None => String::new(),
    }
}

fn payload_of_exec(t: &proto::PTransform) -> (r: Vec<u8>)
    ensures
        r@ == payload_of(*t),
{
    match &t.spec {
        Some(fs) => crate::coders::copy_bytes(&fs.payload),
        None => Vec::new(),
    }
}

/// Whether the transform produces the channel.
fn outputs_contain(t: &proto::PTransform, chan: &String) -> (r: bool)
    ensures
        r == output_chans(*t).contains(chan@),
{
    let mut a: usize = 0;
    while a < t.outputs.len()
        invariant
            0 <= a <= t.outputs@.len(),
            forall|b: int| 0 <= b < a ==> output_chans(*t)[b] != chan@,
        decreases t.outputs@.len() - a,
    {
        if t.outputs[a].1.eq(chan) {
            assert(output_chans(*t)[a as int] == chan@);
            return true;
        }
        a = a + 1;
    }
    assert(!output_chans(*t).contains(chan@));
    false
}

/// Whether the transform consumes the channel.
fn inputs_contain(t: &proto::PTransform, chan: &String) -> (r: bool)
    ensures
        r == input_chans(*t).contains(chan@),
{
    let mut a: usize = 0;
    while a < t.inputs.len()
        invariant
            0 <= a <= t.inputs@.len(),
            forall|b: int| 0 <= b < a ==> input_chans(*t)[b] != chan@,
        decreases t.inputs@.len() - a,
    {
        if t.inputs[a].1.eq(chan) {
            assert(input_chans(*t)[a as int] == chan@);
            return true;
        }
        a = a + 1;
    }
    assert(!input_chans(*t).contains(chan@));
    false
}

/// Whether some placed transform produces the channel.
fn producer_placed_exec(
    entries: &Vec<(String, proto::PTransform)>,
    placed: &Vec<String>,
    chan: &String,
) -> (r: bool)
    requires
        forall|i: int, j: int|
            0 <= i < j < entries@.len() ==> entries@[i].0@ != entries@[j].0@,
        forall|p: int| 0 <= p < placed@.len() ==> has_entry(entries@, #[trigger] placed@[p]@),
    ensures
        r == producer_placed(entries@, views_of(placed@), chan@),
{
    let mut p: usize = 0;
    while p < placed.len()
        invariant
            0 <= p <= placed@.len(),
            forall|i: int, j: int|
                0 <= i < j < entries@.len() ==> entries@[i].0@ != entries@[j].0@,
            forall|q: int| 0 <= q < placed@.len() ==> has_entry(entries@, #[trigger] placed@[q]@),
            forall|q: int|
                0 <= q < p ==> !produces(entries@, views_of(placed@)[q], chan@),
        decreases placed@.len() - p,
    {
        match find_transform(entries, &placed[p]) {
            Some(t) => {
                if outputs_contain(t, chan) {
                    assert(produces(entries@, views_of(placed@)[p as int], chan@));
                    return true;
                }
            },
            None => {
                assert(false);
            },
        }
        p = p + 1;
    }
    false
}

/// Whether the transform is eligible to be placed next.
fn eligible_exec(
    entries: &Vec<(String, proto::PTransform)>,
    placed: &Vec<String>,
    t: &proto::PTransform,
    name: &String,
) -> (r: bool)
    requires
        forall|i: int, j: int|
            0 <= i < j < entries@.len() ==> entries@[i].0@ != entries@[j].0@,
        forall|p: int| 0 <= p < placed@.len() ==> has_entry(entries@, #[trigger] placed@[p]@),
        has_entry(entries@, name@),
        *t == entry_of(entries@, name@),
    ensures
        r == eligible(entries@, views_of(placed@), name@),
{
    let mut a: usize = 0;
    while a < t.inputs.len()
        invariant
            0 <= a <= t.inputs@.len(),
            *t == entry_of(entries@, name@),
            forall|i: int, j: int|
                0 <= i < j < entries@.len() ==> entries@[i].0@ != entries@[j].0@,
            forall|p: int| 0 <= p < placed@.len() ==> has_entry(entries@, #[trigger] placed@[p]@),
            forall|b: int|
                0 <= b < a ==> producer_placed(
                    entries@,
                    views_of(placed@),
                    #[trigger] input_chans(*t)[b],
                ),
        decreases t.inputs@.len() - a,
    {
        if !producer_placed_exec(entries, placed, &t.inputs[a].1) {
            assert(input_chans(*t)[a as int] == t.inputs@[a as int].1@);
            return false;
        }
        assert(input_chans(*t)[a as int] == t.inputs@[a as int].1@);
        a = a + 1;
    }
    true
}

/// If no name before `k` is eligible, the first eligible index is found at
/// the first eligible `k` (or is the length when none is).
proof fn lemma_first_eligible_at(
    entries: Seq<(String, proto::PTransform)>,
    placed: Seq<Seq<char>>,
    rem: Seq<Seq<char>>,
    k: int,
)
    requires
        0 <= k <= rem.len(),
        forall|j: int| 0 <= j < k ==> !eligible(entries, placed, #[trigger] rem[j]),
        k < rem.len() ==> eligible(entries, placed, rem[k]),
    ensures
        first_eligible_idx(entries, placed, rem) == k,
    decreases k,
{
    if rem.len() == 0 {
    } else if k == 0 {
    } else {
        assert(!eligible(entries, placed, rem[0]));
        if k < rem.len() {
            assert(rem.drop_first()[k - 1] == rem[k]);
        }
        lemma_first_eligible_at(entries, placed, rem.drop_first(), k - 1);
    }
}

/// Flattened output channels of a prefix are a prefix of the whole.
proof fn lemma_flat_prefix(
    entries: Seq<(String, proto::PTransform)>,
    names: Seq<Seq<char>>,
    k: int,
    m: int,
)
    requires
        0 <= k <= m <= names.len(),
    ensures
        flat_output_chans(entries, names, k).len() <= flat_output_chans(
            entries,
            names,
            m,
        ).len(),
        forall|x: int|
            0 <= x < flat_output_chans(entries, names, k).len()
                ==> #[trigger] flat_output_chans(entries, names, m)[x] == flat_output_chans(
                entries,
                names,
                k,
            )[x],
    decreases m - k,
{
    if m > k {
        lemma_flat_prefix(entries, names, k, m - 1);
    }
}

/// Empties a call log, so separate runs observed through one log do not mix.
pub fn reset_log(log: &mut Vec<String>)
    ensures
        final(log)@ == Seq::<String>::empty(),
{
    log.clear();
}

/// One process call on operator `j`: logs the operator's own line and hands
/// the element to its receivers.
fn process_element(ops: &Vec<Operator>, j: usize, elem: &String, log: &mut Vec<String>)
    requires
        ops_wf(op_views(ops@)),
        j < ops@.len(),
    ensures
        views_of(final(log)@) == views_of(old(log)@) + spec_element_log(
            op_views(ops@),
            j as int,
            elem@,
        ),
    decreases ops@.len() - j, 1int,
{
    let ghost opsv = op_views(ops@);
    let ghost base = views_of(log@);
    match &ops[j] {
        Operator::Recording { name, .. } => {
            let entry = crate::operators::mk_process_entry(name, elem);
            let ghost before = log@;
            log.push(entry);
            proof {
                assert(views_of(log@) =~= views_of(before).push(entry@));
                assert(views_of(log@) =~= base + op_process_log(opsv[j as int], elem@));
            }
        },
        _ => {
            proof {
                assert(views_of(log@) =~= base + op_process_log(opsv[j as int], elem@));
            }
        },
    }
    emit_from(ops, j, elem, log);
    proof {
        assert(views_of(log@) =~= base + spec_element_log(opsv, j as int, elem@));
    }
}

/// Emits one element on every receiver of operator `j`, in order.
fn emit_from(ops: &Vec<Operator>, j: usize, elem: &String, log: &mut Vec<String>)
    requires
        ops_wf(op_views(ops@)),
        j < ops@.len(),
    ensures
        views_of(final(log)@) == views_of(old(log)@) + spec_emit_log(
            op_views(ops@),
            op_views(ops@)[j as int].receivers,
            j as int,
            elem@,
        ),
    decreases ops@.len() - j, 0int,
{
    let ghost opsv = op_views(ops@);
    let ghost base = views_of(log@);
    let ghost recsv = opsv[j as int].receivers;
    let recs = ops[j].receivers();
    let nr = recs.len();
    proof {
        assert(recsv.take(0) =~= Seq::<Seq<usize>>::empty());
        assert(recs_ok(recsv, j as int, opsv.len() as int));
    }
    let mut r: usize = 0;
    while r < nr
        invariant
            ops_wf(opsv),
            opsv == op_views(ops@),
            j < opsv.len(),
            recsv == opsv[j as int].receivers,
            receiver_views(recs@) == recsv,
            nr == recsv.len(),
            0 <= r <= nr,
            elem@ == elem@,
            base == views_of(old(log)@),
            views_of(log@) == base + spec_emit_log(opsv, recsv.take(r as int), j as int, elem@),
        decreases nr - r,
    {
        let cons = &recs[r].consumers;
        let ghost consv = recsv[r as int];
        proof {
            assert(recs@[r as int]@ == recsv[r as int]);
            assert(cons@ == consv);
            assert(cons_ok(consv, j as int, opsv.len() as int));
            assert(consv.take(0) =~= Seq::<usize>::empty());
        }
        let nc = cons.len();
        let ghost mid = views_of(log@);
        let mut k: usize = 0;
        while k < nc
            invariant
                ops_wf(opsv),
                opsv == op_views(ops@),
                j < opsv.len(),
                consv == opsv[j as int].receivers[r as int],
                0 <= r < opsv[j as int].receivers.len(),
                cons@ == consv,
                nc == consv.len(),
                0 <= k <= nc,
                cons_ok(consv, j as int, opsv.len() as int),
                views_of(log@) == mid + spec_fanout_log(
                    opsv,
                    consv.take(k as int),
                    j as int,
                    elem@,
                ),
            decreases nc - k,
        {
            let c = cons[k];
            proof {
                assert(consv[k as int] == c);
                assert(j < c < opsv.len());
            }
            process_element(ops, c, elem, log);
            proof {
                assert(consv.take(k + 1).drop_last() =~= consv.take(k as int));
                assert(consv.take(k + 1).last() == c);
                assert(spec_fanout_log(opsv, consv.take(k + 1), j as int, elem@)
                    == spec_fanout_log(opsv, consv.take(k as int), j as int, elem@)
                    + spec_element_log(opsv, c as int, elem@));
                assert(views_of(log@) =~= mid + spec_fanout_log(
                    opsv,
                    consv.take(k + 1),
                    j as int,
                    elem@,
                ));
            }
            k = k + 1;
        }
        proof {
            assert(consv.take(nc as int) =~= consv);
            assert(recsv.take(r + 1).drop_last() =~= recsv.take(r as int));
            assert(recsv.take(r + 1).last() == consv);
            assert(spec_emit_log(opsv, recsv.take(r + 1), j as int, elem@) == spec_emit_log(
                opsv,
                recsv.take(r as int),
                j as int,
                elem@,
            ) + spec_fanout_log(opsv, consv, j as int, elem@));
            assert(views_of(log@) =~= base + spec_emit_log(
                opsv,
                recsv.take(r + 1),
                j as int,
                elem@,
            ));
        }
        r = r + 1;
    }
    proof {
        assert(recsv.take(nr as int) =~= recsv);
    }
}

/// One bundle's operator graph, ready to run: roots first in name order,
/// then the remaining operators in dependency order, receivers pointing
/// strictly forward.
pub struct BundleProcessor {
    operators: Vec<Operator>,
    n_roots: usize,
}

impl BundleProcessor {
    /// The graph as operator views, in table order.
    pub closed spec fn ops(&self) -> Seq<OperatorView> {
        op_views(self.operators@)
    }

    /// How many leading operators are roots.
    pub closed spec fn spec_n_roots(&self) -> int {
        self.n_roots as int
    }

    pub closed spec fn wf(&self) -> bool {
        ops_wf(self.ops()) && self.n_roots <= self.operators@.len()
    }

    /// Runs the bundle: starts every non-root operator in reverse table
    /// order, injects each root's elements depth-first in table order, then
    /// finishes every non-root operator in forward table order.  Returns the
    /// call log, which equals `spec_bundle_log` of the graph exactly.
    pub fn process(&self, bundle_id: String) -> (log: Vec<String>)
        requires
            self.wf(),
        ensures
            views_of(log@) == spec_bundle_log(self.ops(), self.spec_n_roots()),
    {
        let _ = bundle_id;
        let ghost opsv = self.ops();
        let n = self.operators.len();
        let r = self.n_roots;
        let mut log: Vec<String> = Vec::new();
        proof {
            assert(views_of(log@) =~= Seq::<Seq<char>>::empty());
            assert(views_of(log@) =~= spec_starts_from(opsv, n as int));
        }
        let mut i: usize = n;
        while i > r
            invariant
                r <= i <= n,
                n == self.operators@.len(),
                r == self.n_roots,
                self.wf(),
                opsv == self.ops(),
                views_of(log@) == spec_starts_from(opsv, i as int),
            decreases i,
        {
            i = i - 1;
            proof {
                assert(opsv[i as int] == self.operators@[i as int]@);
            }
            match &self.operators[i] {
                Operator::Recording { name, .. } => {
                    let entry = mk_start_entry(name);
                    let ghost before = log@;
                    log.push(entry);
                    proof {
                        assert(views_of(log@) =~= views_of(before).push(entry@));
                        assert(views_of(log@) =~= spec_starts_from(opsv, i as int));
                    }
                },
                _ => {
                    proof {
                        assert(op_start_log(opsv[i as int]) =~= Seq::<Seq<char>>::empty());
                        assert(views_of(log@) =~= spec_starts_from(opsv, i as int));
                    }
                },
            }
        }
        let ghost sbase = views_of(log@);
        proof {
            assert(spec_drive_upto(opsv, 0) =~= Seq::<Seq<char>>::empty());
            assert(views_of(log@) =~= sbase + spec_drive_upto(opsv, 0));
        }
        let mut d: usize = 0;
        while d < r
            invariant
                0 <= d <= r,
                r <= n,
                n == self.operators@.len(),
                r == self.n_roots,
                self.wf(),
                opsv == self.ops(),
                sbase == spec_starts_from(opsv, r as int),
                views_of(log@) == sbase + spec_drive_upto(opsv, d as int),
            decreases r - d,
        {
            proof {
                assert(opsv[d as int] == self.operators@[d as int]@);
            }
            match &self.operators[d] {
                Operator::Create { elements, .. } => {
                    let ghost elemsv = opsv[d as int].elements;
                    proof {
                        assert(elemsv == views_of(elements@));
                        assert(elemsv.take(0) =~= Seq::<Seq<char>>::empty());
                    }
                    let ne = elements.len();
                    let ghost dbase = views_of(log@);
                    let mut e: usize = 0;
                    while e < ne
                        invariant
                            0 <= e <= ne,
                            d < r <= n,
                            n == self.operators@.len(),
                            self.wf(),
                            opsv == self.ops(),
                            elemsv == opsv[d as int].elements,
                            elemsv == views_of(elements@),
                            ne == elemsv.len(),
                            views_of(log@) == dbase + spec_elements_drive(
                                opsv,
                                d as int,
                                elemsv.take(e as int),
                            ),
                        decreases ne - e,
                    {
                        emit_from(&self.operators, d, &elements[e], &mut log);
                        proof {
                            assert(elemsv.take(e + 1).drop_last() =~= elemsv.take(e as int));
                            assert(elemsv.take(e + 1).last() == elemsv[e as int]);
                            assert(elements@[e as int]@ == elemsv[e as int]);
                            assert(views_of(log@) =~= dbase + spec_elements_drive(
                                opsv,
                                d as int,
                                elemsv.take(e + 1),
                            ));
                        }
                        e = e + 1;
                    }
                    proof {
                        assert(elemsv.take(ne as int) =~= elemsv);
                        assert(views_of(log@) =~= sbase + spec_drive_upto(opsv, d + 1));
                    }
                },
                _ => {
                    proof {
                        assert(opsv[d as int].elements =~= Seq::<Seq<char>>::empty());
                        assert(spec_elements_drive(opsv, d as int, opsv[d as int].elements)
                            =~= Seq::<Seq<char>>::empty());
                        assert(views_of(log@) =~= sbase + spec_drive_upto(opsv, d + 1));
                    }
                },
            }
            d = d + 1;
        }
        let ghost fbase = views_of(log@);
        proof {
            assert(spec_finishes_upto(opsv, r as int, r as int) =~= Seq::<Seq<char>>::empty());
            assert(views_of(log@) =~= fbase + spec_finishes_upto(opsv, r as int, r as int));
        }
        let mut f: usize = r;
        while f < n
            invariant
                r <= f <= n,
                n == self.operators@.len(),
                r == self.n_roots,
                self.wf(),
                opsv == self.ops(),
                fbase == sbase + spec_drive_upto(opsv, r as int),
                sbase == spec_starts_from(opsv, r as int),
                views_of(log@) == fbase + spec_finishes_upto(opsv, r as int, f as int),
            decreases n - f,
        {
            proof {
                assert(opsv[f as int] == self.operators@[f as int]@);
            }
            match &self.operators[f] {
                Operator::Recording { name, .. } => {
                    let entry = mk_finish_entry(name);
                    let ghost before = log@;
                    log.push(entry);
                    proof {
                        assert(views_of(log@) =~= views_of(before).push(entry@));
                        assert(views_of(log@) =~= fbase + spec_finishes_upto(
                            opsv,
                            r as int,
                            f + 1,
                        ));
                    }
                },
                _ => {
                    proof {
                        assert(op_finish_log(opsv[f as int]) =~= Seq::<Seq<char>>::empty());
                        assert(views_of(log@) =~= fbase + spec_finishes_upto(
                            opsv,
                            r as int,
                            f + 1,
                        ));
                    }
                },
            }
            f = f + 1;
        }
        proof {
            assert(views_of(log@) =~= spec_bundle_log(opsv, r as int));
        }
        log
    }
}

/// Prefix stability of the consumer-index lists.
proof fn lemma_cind_prefix(
    entries: Seq<(String, proto::PTransform)>,
    order: Seq<Seq<char>>,
    chan: Seq<char>,
    k: int,
    m: int,
)
    requires
        0 <= k <= m <= order.len(),
    ensures
        consumer_indices(entries, order, chan, k).len() <= consumer_indices(
            entries,
            order,
            chan,
            m,
        ).len(),
        forall|x: int|
            0 <= x < consumer_indices(entries, order, chan, k).len()
                ==> #[trigger] consumer_indices(entries, order, chan, m)[x] == consumer_indices(
                entries,
                order,
                chan,
                k,
            )[x],
    decreases m - k,
{
    if m > k {
        lemma_cind_prefix(entries, order, chan, k, m - 1);
    }
}

impl BundleProcessor {
    /// Builds the operator graph for a bundle descriptor.
    ///
    /// Transform entries are taken in canonical name order, so any
    /// permutation of the same entries yields the same graph.  Roots (whose
    /// URN is in `root_urns`) come first, then the rest in dependency order.
    /// Rejected descriptors: a repeated transform name, a root that declares
    /// an input, a channel produced twice, a consumed channel that no
    /// transform produces, a dependency cycle (all `MalformedDescriptor`),
    /// and a transform URN the operator factory does not support
    /// (`UnsupportedUrn`).  Construction succeeds exactly when `spec_build`
    /// yields a graph, and then returns exactly that graph.
    #[verifier::loop_isolation(false)]
    #[verifier::rlimit(100)]
    pub fn new(descriptor: &proto::ProcessBundleDescriptor, root_urns: &Vec<String>) -> (r:
        Result<BundleProcessor, HarnessError>)
        ensures
            match r {
                Ok(bp) => spec_build(descriptor.transforms@, views_of(root_urns@)) == Some(
                    (bp.ops(), bp.spec_n_roots()),
                ) && bp.wf(),
                Err(e) => {
                    &&& spec_build(descriptor.transforms@, views_of(root_urns@)) is None
                    &&& match e {
                        HarnessError::UnsupportedUrn(u) => !spec_urn_supported(u@) && (exists|
                            n: Seq<char>,
                        |
                            #[trigger] has_entry(descriptor.transforms@, n) && urn_of(
                                entry_of(descriptor.transforms@, n),
                            ) == u@) && spec_shape_ok(descriptor.transforms@, views_of(root_urns@)),
                        HarnessError::MalformedDescriptor(_) => true,
                        _ => false,
                    }
                    &&& !some_urn_unsupported(descriptor.transforms@) ==> e
                        matches HarnessError::MalformedDescriptor(_)
                },
            },
    {
        let entries = &descriptor.transforms;
        let ghost ev = descriptor.transforms@;
        let ghost rootsv = views_of(root_urns@);
        let ghost cn = canon_names(ev);
        proof {
            lemma_lex_total_ordering();
            entry_names(ev).lemma_sort_by_ensures(lex_leq_fn());
        }
        let n_entries = entries.len();
        let mut names: Vec<String> = Vec::new();
        let mut i: usize = 0;
        proof {
            assert(views_of(names@) =~= entry_names(ev).take(0));
        }
        while i < n_entries
            invariant
                0 <= i <= n_entries,
                n_entries == ev.len(),
                ev == descriptor.transforms@,
                views_of(names@) == entry_names(ev).take(i as int),
            decreases n_entries - i,
        {
            names.push(entries[i].0.clone());
            proof {
                assert(entry_names(ev)[i as int] == ev[i as int].0@);
                assert(views_of(names@) =~= entry_names(ev).take(i + 1));
            }
            i = i + 1;
        }
        proof {
            assert(entry_names(ev).take(n_entries as int) =~= entry_names(ev));
        }
        let sorted = sort_strings(names);
        let ghost sv = views_of(sorted@);
        proof {
            vstd::seq_lib::lemma_sorted_unique(sv, cn, lex_leq_fn());
            assert(sv == cn);
        }
        let n = sorted.len();

        // repeated names
        let mut i: usize = 0;
        while i < n && i + 1 < n
            invariant
                0 <= i <= n,
                n == cn.len(),
                sv == cn,
                sv == views_of(sorted@),
                vstd::relations::sorted_by(cn, lex_leq_fn()),
                forall|j: int| 0 <= j < i ==> #[trigger] cn[j] != cn[j + 1],
            decreases n - i,
        {
            if sorted[i].eq(&sorted[i + 1]) {
                proof {
                    assert(cn[i as int] == cn[i + 1]);
                    assert(!names_unique(cn));
                }
                return Err(HarnessError::MalformedDescriptor(sorted[i].clone()));
            }
            i = i + 1;
        }
        proof {
            assert forall|p: int, q: int| 0 <= p < q < cn.len() implies cn[p] != cn[q] by {
                if cn[p] == cn[q] {
                    assert(lex_leq_fn()(cn[p], cn[p + 1]));
                    if p + 1 < q {
                        assert(lex_leq_fn()(cn[p + 1], cn[q]));
                    }
                    lemma_lex_antisym(cn[p], cn[p + 1]);
                }
            }
            assert(names_unique(cn));
            lemma_entries_names_distinct(ev);
        }

        // partition into roots and the rest; roots consume nothing
        let mut roots_vec: Vec<String> = Vec::new();
        let mut nonroots_vec: Vec<String> = Vec::new();
        let mut i: usize = 0;
        proof {
            assert(views_of(roots_vec@) =~= filter_roots(ev, rootsv, cn, true, 0));
            assert(views_of(nonroots_vec@) =~= filter_roots(ev, rootsv, cn, false, 0));
        }
        while i < n
            invariant
                0 <= i <= n,
                n == cn.len(),
                sv == cn,
                sv == views_of(sorted@),
                ev == descriptor.transforms@,
                rootsv == views_of(root_urns@),
                names_unique(cn),
                forall|i2: int, j2: int|
                    0 <= i2 < j2 < ev.len() ==> ev[i2].0@ != ev[j2].0@,
                views_of(roots_vec@) == filter_roots(ev, rootsv, cn, true, i as int),
                views_of(nonroots_vec@) == filter_roots(ev, rootsv, cn, false, i as int),
                forall|j: int|
                    0 <= j < i && is_root_name(ev, rootsv, #[trigger] cn[j]) ==> input_chans(
                        entry_of(ev, cn[j]),
                    ).len() == 0,
            decreases n - i,
        {
            proof {
                lemma_canon_has_entry(ev, i as int);
            }
            let found = find_transform(entries, &sorted[i]);
            match found {
                Some(t) => {
                    let urn = urn_of_exec(t);
                    if contains_string(root_urns, &urn) {
                        assert(is_root_name(ev, rootsv, cn[i as int]));
                        if t.inputs.len() > 0 {
                            proof {
                                assert(!roots_have_no_inputs(ev, rootsv, cn));
                            }
                            return Err(HarnessError::MalformedDescriptor(sorted[i].clone()));
                        }
                        roots_vec.push(sorted[i].clone());
                        proof {
                            assert(views_of(roots_vec@) =~= filter_roots(
                                ev,
                                rootsv,
                                cn,
                                true,
                                i + 1,
                            ));
                            assert(views_of(nonroots_vec@) =~= filter_roots(
                                ev,
                                rootsv,
                                cn,
                                false,
                                i + 1,
                            ));
                        }
                    } else {
                        assert(!is_root_name(ev, rootsv, cn[i as int]));
                        nonroots_vec.push(sorted[i].clone());
                        proof {
                            assert(views_of(roots_vec@) =~= filter_roots(
                                ev,
                                rootsv,
                                cn,
                                true,
                                i + 1,
                            ));
                            assert(views_of(nonroots_vec@) =~= filter_roots(
                                ev,
                                rootsv,
                                cn,
                                false,
                                i + 1,
                            ));
                        }
                    }
                },
                None => {
                    proof {
                        assert(false);
                    }
                },
            }
            i = i + 1;
        }
        proof {
            assert(roots_have_no_inputs(ev, rootsv, cn));
        }
        let ghost rs = filter_roots(ev, rootsv, cn, true, n as int);
        let ghost nrs = filter_roots(ev, rootsv, cn, false, n as int);

        // produced channels, each by exactly one transform
        let mut produced: Vec<String> = Vec::new();
        let mut i: usize = 0;
        proof {
            assert(views_of(produced@) =~= flat_output_chans(ev, cn, 0));
        }
        while i < n
            invariant
                0 <= i <= n,
                n == cn.len(),
                sv == cn,
                sv == views_of(sorted@),
                ev == descriptor.transforms@,
                rootsv == views_of(root_urns@),
                names_unique(cn),
                roots_have_no_inputs(ev, rootsv, cn),
                forall|i2: int, j2: int|
                    0 <= i2 < j2 < ev.len() ==> ev[i2].0@ != ev[j2].0@,
                views_of(produced@) == flat_output_chans(ev, cn, i as int),
                forall|x: int, y: int|
                    0 <= x < y < views_of(produced@).len() ==> views_of(produced@)[x]
                        != views_of(produced@)[y],
            decreases n - i,
        {
            proof {
                lemma_canon_has_entry(ev, i as int);
            }
            let found = find_transform(entries, &sorted[i]);
            match found {
                Some(t) => {
                    let no = t.outputs.len();
                    let ghost fbase = views_of(produced@);
                    let mut a: usize = 0;
                    proof {
                        assert(output_chans(*t).take(0) =~= Seq::<Seq<char>>::empty());
                        assert(views_of(produced@) =~= fbase + output_chans(*t).take(0));
                    }
                    while a < no
                        invariant
                            0 <= a <= no,
                            no == output_chans(*t).len(),
                            i < n == cn.len(),
                            *t == entry_of(ev, cn[i as int]),
                            fbase == flat_output_chans(ev, cn, i as int),
                            views_of(produced@) == fbase + output_chans(*t).take(a as int),
                            forall|x: int, y: int|
                                0 <= x < y < views_of(produced@).len() ==> views_of(produced@)[x]
                                    != views_of(produced@)[y],
                        decreases no - a,
                    {
                        let chan = &t.outputs[a].1;
                        proof {
                            assert(output_chans(*t)[a as int] == chan@);
                        }
                        if contains_string(&produced, chan) {
                            proof {
                                let pv = views_of(produced@);
                                let x = choose|x: int| 0 <= x < pv.len() && pv[x] == chan@;
                                let f1 = flat_output_chans(ev, cn, i + 1);
                                assert(output_chans(*t).take(a + 1) =~= output_chans(
                                    *t,
                                ).take(a as int).push(chan@));
                                lemma_flat_prefix(ev, cn, i + 1, n as int);
                                let whole = flat_output_chans(ev, cn, n as int);
                                assert(f1 =~= flat_output_chans(ev, cn, i as int) + output_chans(
                                    *t,
                                ));
                                assert(f1[x] == chan@) by {
                                    if x < fbase.len() {
                                        assert(f1[x] == fbase[x]);
                                    } else {
                                        assert(f1[x] == output_chans(*t)[x - fbase.len()]);
                                        assert(pv[x] == output_chans(*t).take(a as int)[x
                                            - fbase.len()]);
                                    }
                                }
                                let y = fbase.len() + a;
                                assert(f1[y] == chan@);
                                assert(x < y);
                                assert(whole[x] == chan@ && whole[y] == chan@);
                                assert(seq_has_dup(whole));
                            }
                            return Err(HarnessError::MalformedDescriptor(chan.clone()));
                        }
                        produced.push(chan.clone());
                        proof {
                            assert(output_chans(*t).take(a + 1) =~= output_chans(*t).take(
                                a as int,
                            ).push(chan@));
                            assert(views_of(produced@) =~= (fbase + output_chans(*t).take(
                                a as int,
                            )).push(chan@));
                            assert(views_of(produced@) =~= fbase + output_chans(*t).take(a + 1));
                        }
                        a = a + 1;
                    }
                    proof {
                        assert(output_chans(*t).take(no as int) =~= output_chans(*t));
                        assert(views_of(produced@) =~= flat_output_chans(ev, cn, i + 1));
                    }
                },
                None => {
                    proof {
                        assert(false);
                    }
                },
            }
            i = i + 1;
        }
        proof {
            assert(views_of(produced@) == flat_output_chans(ev, cn, n as int));
            assert(!seq_has_dup(flat_output_chans(ev, cn, n as int))) by {
                let whole = flat_output_chans(ev, cn, n as int);
                if seq_has_dup(whole) {
                    let (x, y): (int, int) = choose|x: int, y: int|
                        0 <= x < y < whole.len() && whole[x] == whole[y];
                    assert(views_of(produced@)[x] == views_of(produced@)[y]);
                }
            }
        }

        // every consumed channel is produced
        let mut i: usize = 0;
        while i < n
            invariant
                0 <= i <= n,
                n == cn.len(),
                sv == cn,
                sv == views_of(sorted@),
                ev == descriptor.transforms@,
                rootsv == views_of(root_urns@),
                names_unique(cn),
                roots_have_no_inputs(ev, rootsv, cn),
                forall|i2: int, j2: int|
                    0 <= i2 < j2 < ev.len() ==> ev[i2].0@ != ev[j2].0@,
                views_of(produced@) == flat_output_chans(ev, cn, n as int),
                !seq_has_dup(flat_output_chans(ev, cn, n as int)),
                forall|j: int, b: int|
                    0 <= j < i && 0 <= b < input_chans(entry_of(ev, cn[j])).len()
                        ==> flat_output_chans(ev, cn, n as int).contains(
                        #[trigger] input_chans(entry_of(ev, cn[j]))[b],
                    ),
            decreases n - i,
        {
            proof {
                lemma_canon_has_entry(ev, i as int);
            }
            let found = find_transform(entries, &sorted[i]);
            match found {
                Some(t) => {
                    let ni = t.inputs.len();
                    let mut a: usize = 0;
                    while a < ni
                        invariant
                            0 <= a <= ni,
                            ni == input_chans(*t).len(),
                            i < n == cn.len(),
                            *t == entry_of(ev, cn[i as int]),
                            views_of(produced@) == flat_output_chans(ev, cn, n as int),
                            forall|b: int|
                                0 <= b < a ==> flat_output_chans(ev, cn, n as int).contains(
                                    #[trigger] input_chans(*t)[b],
                                ),
                        decreases ni - a,
                    {
                        let chan = &t.inputs[a].1;
                        proof {
                            assert(input_chans(*t)[a as int] == chan@);
                        }
                        if !contains_string(&produced, chan) {
                            proof {
                                assert(!all_inputs_produced(ev, cn));
                            }
                            return Err(HarnessError::MalformedDescriptor(chan.clone()));
                        }
                        a = a + 1;
                    }
                },
                None => {
                    proof {
                        assert(false);
                    }
                },
            }
            i = i + 1;
        }
        proof {
            assert(all_inputs_produced(ev, cn));
        }

        // dependency order
        let mut order: Vec<String> = roots_vec;
        let k_roots = order.len();
        let mut remaining: Vec<String> = nonroots_vec;
        proof {
            assert forall|k: int| 0 <= k < cn.len() implies has_entry(
                ev,
                #[trigger] cn[k],
            ) by {
                lemma_canon_has_entry(ev, k);
            }
            assert(views_of(order@) == rs);
            assert(views_of(remaining@) == nrs);
            assert(views_of(order@).take(k_roots as int) =~= rs);
            assert(views_of(order@).skip(k_roots as int) =~= Seq::<Seq<char>>::empty());
            assert forall|p: int| 0 <= p < rs.len() implies has_entry(
                ev,
                #[trigger] rs[p],
            ) by {
                lemma_filter_member(ev, rootsv, cn, true, n as int, p);
            }
            assert forall|p: int| 0 <= p < nrs.len() implies has_entry(
                ev,
                #[trigger] nrs[p],
            ) by {
                lemma_filter_member(ev, rootsv, cn, false, n as int, p);
            }
        }
        while remaining.len() > 0
            invariant
                n == cn.len(),
                ev == descriptor.transforms@,
                rootsv == views_of(root_urns@),
                names_unique(cn),
                forall|i2: int, j2: int|
                    0 <= i2 < j2 < ev.len() ==> ev[i2].0@ != ev[j2].0@,
                k_roots <= order@.len(),
                views_of(order@).take(k_roots as int) == rs,
                forall|p: int|
                    0 <= p < order@.len() ==> has_entry(ev, #[trigger] views_of(order@)[p]),
                forall|p: int|
                    0 <= p < remaining@.len() ==> has_entry(ev, #[trigger] views_of(remaining@)[p]),
                spec_topo(ev, rs, nrs) == (match spec_topo(
                    ev,
                    views_of(order@),
                    views_of(remaining@),
                ) {
                    None => None::<Seq<Seq<char>>>,
                    Some(rest) => Some(views_of(order@).skip(k_roots as int) + rest),
                }),
            decreases remaining@.len(),
        {
            let m = remaining.len();
            proof {
                assert forall|p: int| 0 <= p < order@.len() implies has_entry(
                    ev,
                    #[trigger] order@[p]@,
                ) by {
                    assert(views_of(order@)[p] == order@[p]@);
                }
            }
            let mut s: usize = 0;
            let mut found_eligible: bool = false;
            while s < m && !found_eligible
                invariant
                    0 <= s <= m,
                    m == remaining@.len(),
                    ev == descriptor.transforms@,
                    forall|i2: int, j2: int|
                        0 <= i2 < j2 < ev.len() ==> ev[i2].0@ != ev[j2].0@,
                    forall|p: int|
                        0 <= p < order@.len() ==> has_entry(ev, #[trigger] views_of(order@)[p]),
                    forall|p: int|
                        0 <= p < remaining@.len() ==> has_entry(
                            ev,
                            #[trigger] views_of(remaining@)[p],
                        ),
                    forall|j: int|
                        0 <= j < s ==> !eligible(
                            ev,
                            views_of(order@),
                            #[trigger] views_of(remaining@)[j],
                        ),
                    found_eligible ==> s < m && eligible(
                        ev,
                        views_of(order@),
                        views_of(remaining@)[s as int],
                    ),
                decreases m - s + (if found_eligible { 0int } else { 1int }),
            {
                proof {
                    assert(views_of(remaining@)[s as int] == remaining@[s as int]@);
                }
                let found = find_transform(entries, &remaining[s]);
                match found {
                    Some(t) => {
                        if eligible_exec(entries, &order, t, &remaining[s]) {
                            found_eligible = true;
                        } else {
                            s = s + 1;
                        }
                    },
                    None => {
                        proof {
                            assert(false);
                        }
                    },
                }
            }
            if !found_eligible {
                proof {
                    lemma_first_eligible_at(ev, views_of(order@), views_of(remaining@), m as int);
                }
                return Err(HarnessError::MalformedDescriptor(remaining[0].clone()));
            }
            proof {
                lemma_first_eligible_at(ev, views_of(order@), views_of(remaining@), s as int);
            }
            let ghost prev_order = views_of(order@);
            let ghost prev_rem = views_of(remaining@);
            let picked = remaining.remove(s);
            order.push(picked);
            proof {
                let pv = prev_rem[s as int];
                assert(views_of(order@) =~= prev_order.push(pv));
                assert(views_of(remaining@) =~= prev_rem.remove(s as int));
                assert(views_of(order@).take(k_roots as int) =~= rs);
                assert(views_of(order@).skip(k_roots as int) =~= prev_order.skip(
                    k_roots as int,
                ).push(pv));
                assert forall|p: int| 0 <= p < order@.len() implies has_entry(
                    ev,
                    #[trigger] views_of(order@)[p],
                ) by {
                    if p < prev_order.len() {
                        assert(views_of(order@)[p] == prev_order[p]);
                    }
                }
                assert forall|p: int| 0 <= p < remaining@.len() implies has_entry(
                    ev,
                    #[trigger] views_of(remaining@)[p],
                ) by {
                    let pp = if p < s { p } else { p + 1 };
                    assert(views_of(remaining@)[p] == prev_rem[pp]);
                }
                match spec_topo(ev, views_of(order@), views_of(remaining@)) {
                    None => {
                        assert(spec_topo(ev, prev_order, prev_rem) is None);
                    },
                    Some(rest) => {
                        assert(spec_topo(ev, prev_order, prev_rem) == Some(seq![pv] + rest));
                        assert(prev_order.skip(k_roots as int) + (seq![pv] + rest)
                            =~= views_of(order@).skip(k_roots as int) + rest);
                    },
                }
            }
        }
        proof {
            assert(views_of(remaining@).len() == 0);
            assert(spec_topo(ev, views_of(order@), views_of(remaining@)) == Some(
                Seq::<Seq<char>>::empty(),
            ));
            assert(spec_topo(ev, rs, nrs) == Some(views_of(order@).skip(k_roots as int)));
            assert(rs + views_of(order@).skip(k_roots as int) =~= views_of(order@));
        }

        // operators and receivers
        let ghost orderv = views_of(order@);
        let n_ops = order.len();
        let mut ops_vec: Vec<Operator> = Vec::new();
        let mut i: usize = 0;
        while i < n_ops
            invariant
                0 <= i <= n_ops,
                n_ops == orderv.len(),
                orderv == views_of(order@),
                ev == descriptor.transforms@,
                forall|i2: int, j2: int|
                    0 <= i2 < j2 < ev.len() ==> ev[i2].0@ != ev[j2].0@,
                forall|p: int| 0 <= p < orderv.len() ==> has_entry(ev, #[trigger] orderv[p]),
                op_views(ops_vec@).len() == i,
                forall|q: int|
                    0 <= q < i ==> op_views(ops_vec@)[q] == spec_op_at(ev, orderv, q),
                forall|q: int|
                    0 <= q < i ==> recs_ok(
                        spec_receivers(ev, orderv, #[trigger] orderv[q]),
                        q,
                        n_ops as int,
                    ),
                forall|q: int|
                    0 <= q < i ==> spec_urn_supported(
                        urn_of(entry_of(ev, #[trigger] orderv[q])),
                    ) && (urn_of(entry_of(ev, orderv[q])) == crate::urns::CREATE_URN@
                        ==> json_string_list(payload_of(entry_of(ev, orderv[q]))) is Some),
            decreases n_ops - i,
        {
            let found = find_transform(entries, &order[i]);
            match found {
                Some(t) => {
                    let no = t.outputs.len();
                    let mut recs: Vec<Receiver> = Vec::new();
                    let mut a: usize = 0;
                    while a < no
                        invariant
                            0 <= a <= no,
                            no == output_chans(*t).len(),
                            i < n_ops == orderv.len(),
                            orderv == views_of(order@),
                            ev == descriptor.transforms@,
                            *t == entry_of(ev, orderv[i as int]),
                            forall|i2: int, j2: int|
                                0 <= i2 < j2 < ev.len() ==> ev[i2].0@ != ev[j2].0@,
                            forall|p: int|
                                0 <= p < orderv.len() ==> has_entry(ev, #[trigger] orderv[p]),
                            recs@.len() == a,
                            forall|b: int|
                                0 <= b < a ==> #[trigger] recs@[b]@ == spec_receivers(
                                    ev,
                                    orderv,
                                    orderv[i as int],
                                )[b],
                            forall|b: int, x: int|
                                0 <= b < a && 0 <= x < recs@[b]@.len() ==> i
                                    < #[trigger] recs@[b]@[x] < n_ops,
                        decreases no - a,
                    {
                        let chan = &t.outputs[a].1;
                        proof {
                            assert(output_chans(*t)[a as int] == chan@);
                            assert(consumer_indices(ev, orderv, chan@, 0)
                                =~= Seq::<usize>::empty());
                        }
                        let mut consumers: Vec<usize> = Vec::new();
                        let mut j: usize = 0;
                        while j < n_ops
                            invariant
                                0 <= j <= n_ops,
                                n_ops == orderv.len(),
                                orderv == views_of(order@),
                                ev == descriptor.transforms@,
                                i < n_ops,
                                chan@ == output_chans(entry_of(ev, orderv[i as int]))[a as int],
                                0 <= a < output_chans(entry_of(ev, orderv[i as int])).len(),
                                forall|i2: int, j2: int|
                                    0 <= i2 < j2 < ev.len() ==> ev[i2].0@ != ev[j2].0@,
                                forall|p: int|
                                    0 <= p < orderv.len() ==> has_entry(ev, #[trigger] orderv[p]),
                                consumers@ == consumer_indices(ev, orderv, chan@, j as int),
                                forall|x: int|
                                    0 <= x < consumers@.len() ==> i < #[trigger] consumers@[x]
                                        < n_ops,
                            decreases n_ops - j,
                        {
                            let foundj = find_transform(entries, &order[j]);
                            match foundj {
                                Some(tj) => {
                                    if inputs_contain(tj, chan) {
                                        assert(consumes(ev, orderv[j as int], chan@));
                                        if j <= i {
                                            proof {
                                                let full = consumer_indices(
                                                    ev,
                                                    orderv,
                                                    chan@,
                                                    n_ops as int,
                                                );
                                                assert(consumer_indices(ev, orderv, chan@, j + 1)
                                                    =~= consumers@.push(j as usize));
                                                lemma_cind_prefix(
                                                    ev,
                                                    orderv,
                                                    chan@,
                                                    j + 1,
                                                    n_ops as int,
                                                );
                                                let pos = consumers@.len();
                                                assert(consumer_indices(ev, orderv, chan@, j + 1)[
                                                    pos as int] == j as usize);
                                                assert(full[pos as int] == j as usize);
                                                assert(!cons_ok(
                                                    spec_receivers(ev, orderv, orderv[i as int])[
                                                        a as int],
                                                    i as int,
                                                    n_ops as int,
                                                ));
                                                assert(!order_wired_forward(ev, orderv));
                                            }
                                            return Err(HarnessError::MalformedDescriptor(
                                                order[i].clone(),
                                            ));
                                        }
                                        consumers.push(j);
                                        proof {
                                            assert(consumers@ =~= consumer_indices(
                                                ev,
                                                orderv,
                                                chan@,
                                                j + 1,
                                            ));
                                        }
                                    } else {
                                        proof {
                                            assert(consumers@ =~= consumer_indices(
                                                ev,
                                                orderv,
                                                chan@,
                                                j + 1,
                                            ));
                                        }
                                    }
                                },
                                None => {
                                    proof {
                                        assert(false);
                                    }
                                },
                            }
                            j = j + 1;
                        }
                        recs.push(Receiver { consumers });
                        proof {
                            assert(recs@[a as int]@ == consumer_indices(
                                ev,
                                orderv,
                                chan@,
                                n_ops as int,
                            ));
                            assert(spec_receivers(ev, orderv, orderv[i as int])[a as int]
                                == consumer_indices(ev, orderv, chan@, n_ops as int));
                        }
                        a = a + 1;
                    }
                    let urn = urn_of_exec(t);
                    let payload = payload_of_exec(t);
                    let ghost recsv_full = spec_receivers(ev, orderv, orderv[i as int]);
                    proof {
                        assert(receiver_views(recs@) =~= recsv_full);
                    }
                    let op_result = create_operator(&order[i], &urn, &payload, recs);
                    match op_result {
                        Ok(op) => {
                            proof {
                                assert(op@ == spec_op_at(ev, orderv, i as int));
                            }
                            ops_vec.push(op);
                            proof {
                                assert forall|q: int| 0 <= q < i + 1 implies op_views(ops_vec@)[q]
                                    == spec_op_at(ev, orderv, q) by {
                                    if q < i {
                                        assert(op_views(ops_vec@)[q] == op_views(
                                            ops_vec@.drop_last(),
                                        )[q]);
                                    }
                                }
                                assert(recs_ok(recsv_full, i as int, n_ops as int));
                            }
                        },
                        Err(e) => {
                            proof {
                                assert(!all_ops_buildable(ev, orderv));
                            }
                            match &e {
                                HarnessError::UnsupportedUrn(u) => {
                                    proof {
                                        assert(has_entry(ev, orderv[i as int]));
                                        assert(urn_of(entry_of(ev, orderv[i as int])) == u@);
                                        assert(some_urn_unsupported(ev));
                                        assert(spec_shape_ok(ev, rootsv));
                                    }
                                },
                                _ => {},
                            }
                            return Err(e);
                        },
                    }
                },
                None => {
                    proof {
                        assert(false);
                    }
                },
            }
            i = i + 1;
        }
        let bp = BundleProcessor { operators: ops_vec, n_roots: k_roots };
        proof {
            assert(all_ops_buildable(ev, orderv));
            assert(order_wired_forward(ev, orderv));
            assert(bp.ops() =~= Seq::new(orderv.len(), |q: int| spec_op_at(ev, orderv, q)));
            assert(ops_wf(bp.ops())) by {
                assert forall|q: int| 0 <= q < bp.ops().len() implies recs_ok(
                    #[trigger] bp.ops()[q].receivers,
                    q,
                    bp.ops().len() as int,
                ) by {
                    assert(bp.ops()[q] == spec_op_at(ev, orderv, q));
                    assert(bp.ops()[q].receivers == spec_receivers(ev, orderv, orderv[q]));
                }
            }
            assert(spec_build(ev, rootsv) == Some((bp.ops(), k_roots as int)));
        }
        Ok(bp)
    }
}

/// A name selected by the root filter is one of the canonical names.
proof fn lemma_filter_member(
    entries: Seq<(String, proto::PTransform)>,
    roots: Seq<Seq<char>>,
    names: Seq<Seq<char>>,
    want_root: bool,
    i: int,
    p: int,
)
    requires
        0 <= i <= names.len(),
        0 <= p < filter_roots(entries, roots, names, want_root, i).len(),
        forall|k: int| 0 <= k < names.len() ==> has_entry(entries, #[trigger] names[k]),
    ensures
        has_entry(entries, filter_roots(entries, roots, names, want_root, i)[p]),
    decreases i,
{
    if i > 0 {
        let prev = filter_roots(entries, roots, names, want_root, i - 1);
        if p < prev.len() {
            lemma_filter_member(entries, roots, names, want_root, i - 1, p);
        } else {
            assert(filter_roots(entries, roots, names, want_root, i)[p] == names[i - 1]);
        }
    }
}

/// A start line of some recording operator of the table.
pub open spec fn is_start_line(ops: Seq<OperatorView>, e: Seq<char>) -> bool {
    exists|j: int|
        0 <= j < ops.len() && (#[trigger] ops[j]).is_recording && e == start_entry(ops[j].name)
}

/// A process line of some recording operator of the table.
pub open spec fn is_process_line(ops: Seq<OperatorView>, e: Seq<char>) -> bool {
    exists|j: int, elem: Seq<char>|
        0 <= j < ops.len() && ops[j].is_recording && e == #[trigger] process_entry(
            ops[j].name,
            elem,
        )
}

/// A finish line of some recording operator of the table.
pub open spec fn is_finish_line(ops: Seq<OperatorView>, e: Seq<char>) -> bool {
    exists|j: int|
        0 <= j < ops.len() && (#[trigger] ops[j]).is_recording && e == finish_entry(ops[j].name)
}

proof fn lemma_element_log_lines(ops: Seq<OperatorView>, j: int, elem: Seq<char>)
    requires
        ops_wf(ops),
        0 <= j < ops.len(),
    ensures
        forall|k: int|
            0 <= k < spec_element_log(ops, j, elem).len() ==> is_process_line(
                ops,
                #[trigger] spec_element_log(ops, j, elem)[k],
            ),
    decreases ops.len() - j, 0int, 0int,
{
    let own = op_process_log(ops[j], elem);
    lemma_emit_log_lines(ops, ops[j].receivers, j, elem);
    assert forall|k: int| 0 <= k < spec_element_log(ops, j, elem).len() implies is_process_line(
        ops,
        #[trigger] spec_element_log(ops, j, elem)[k],
    ) by {
        if k < own.len() {
            assert(ops[j].is_recording);
            assert(spec_element_log(ops, j, elem)[k] == process_entry(ops[j].name, elem));
        } else {
            let rest = spec_emit_log(ops, ops[j].receivers, j, elem);
            assert(spec_element_log(ops, j, elem)[k] == rest[k - own.len()]);
        }
    }
}

proof fn lemma_emit_log_lines(
    ops: Seq<OperatorView>,
    recs: Seq<Seq<usize>>,
    lo: int,
    elem: Seq<char>,
)
    requires
        ops_wf(ops),
        0 <= lo < ops.len(),
        recs_ok(recs, lo, ops.len() as int),
    ensures
        forall|k: int|
            0 <= k < spec_emit_log(ops, recs, lo, elem).len() ==> is_process_line(
                ops,
                #[trigger] spec_emit_log(ops, recs, lo, elem)[k],
            ),
    decreases ops.len() - lo - 1, 2int, recs.len(),
{
    if recs.len() != 0 {
        lemma_emit_log_lines(ops, recs.drop_last(), lo, elem);
        lemma_fanout_log_lines(ops, recs.last(), lo, elem);
        let a = spec_emit_log(ops, recs.drop_last(), lo, elem);
        let b = spec_fanout_log(ops, recs.last(), lo, elem);
        assert forall|k: int|
            0 <= k < spec_emit_log(ops, recs, lo, elem).len() implies is_process_line(
            ops,
            #[trigger] spec_emit_log(ops, recs, lo, elem)[k],
        ) by {
            if k < a.len() {
                assert(spec_emit_log(ops, recs, lo, elem)[k] == a[k]);
            } else {
                assert(spec_emit_log(ops, recs, lo, elem)[k] == b[k - a.len()]);
            }
        }
    }
}

proof fn lemma_fanout_log_lines(
    ops: Seq<OperatorView>,
    cons: Seq<usize>,
    lo: int,
    elem: Seq<char>,
)
    requires
        ops_wf(ops),
        0 <= lo < ops.len(),
        cons_ok(cons, lo, ops.len() as int),
    ensures
        forall|k: int|
            0 <= k < spec_fanout_log(ops, cons, lo, elem).len() ==> is_process_line(
                ops,
                #[trigger] spec_fanout_log(ops, cons, lo, elem)[k],
            ),
    decreases ops.len() - lo - 1, 1int, cons.len(),
{
    if cons.len() != 0 {
        lemma_fanout_log_lines(ops, cons.drop_last(), lo, elem);
        lemma_element_log_lines(ops, cons.last() as int, elem);
        let a = spec_fanout_log(ops, cons.drop_last(), lo, elem);
        let b = spec_element_log(ops, cons.last() as int, elem);
        assert forall|k: int|
            0 <= k < spec_fanout_log(ops, cons, lo, elem).len() implies is_process_line(
            ops,
            #[trigger] spec_fanout_log(ops, cons, lo, elem)[k],
        ) by {
            if k < a.len() {
                assert(spec_fanout_log(ops, cons, lo, elem)[k] == a[k]);
            } else {
                assert(spec_fanout_log(ops, cons, lo, elem)[k] == b[k - a.len()]);
            }
        }
    }
}

proof fn lemma_elements_drive_lines(ops: Seq<OperatorView>, i: int, elems: Seq<Seq<char>>)
    requires
        ops_wf(ops),
        0 <= i < ops.len(),
    ensures
        forall|k: int|
            0 <= k < spec_elements_drive(ops, i, elems).len() ==> is_process_line(
                ops,
                #[trigger] spec_elements_drive(ops, i, elems)[k],
            ),
    decreases elems.len(),
{
    if elems.len() != 0 {
        lemma_elements_drive_lines(ops, i, elems.drop_last());
        lemma_emit_log_lines(ops, ops[i].receivers, i, elems.last());
        let a = spec_elements_drive(ops, i, elems.drop_last());
        let b = spec_emit_log(ops, ops[i].receivers, i, elems.last());
        assert forall|k: int|
            0 <= k < spec_elements_drive(ops, i, elems).len() implies is_process_line(
            ops,
            #[trigger] spec_elements_drive(ops, i, elems)[k],
        ) by {
            if k < a.len() {
                assert(spec_elements_drive(ops, i, elems)[k] == a[k]);
            } else {
                assert(spec_elements_drive(ops, i, elems)[k] == b[k - a.len()]);
            }
        }
    }
}

proof fn lemma_drive_lines(ops: Seq<OperatorView>, i: int)
    requires
        ops_wf(ops),
        0 <= i <= ops.len(),
    ensures
        forall|k: int|
            0 <= k < spec_drive_upto(ops, i).len() ==> is_process_line(
                ops,
                #[trigger] spec_drive_upto(ops, i)[k],
            ),
    decreases i,
{
    if i > 0 {
        lemma_drive_lines(ops, i - 1);
        lemma_elements_drive_lines(ops, i - 1, ops[i - 1].elements);
        let a = spec_drive_upto(ops, i - 1);
        let b = spec_elements_drive(ops, i - 1, ops[i - 1].elements);
        assert forall|k: int| 0 <= k < spec_drive_upto(ops, i).len() implies is_process_line(
            ops,
            #[trigger] spec_drive_upto(ops, i)[k],
        ) by {
            if k < a.len() {
                assert(spec_drive_upto(ops, i)[k] == a[k]);
            } else {
                assert(spec_drive_upto(ops, i)[k] == b[k - a.len()]);
            }
        }
    }
}

proof fn lemma_start_lines(ops: Seq<OperatorView>, i: int)
    requires
        0 <= i <= ops.len(),
    ensures
        forall|k: int|
            0 <= k < spec_starts_from(ops, i).len() ==> is_start_line(
                ops,
                #[trigger] spec_starts_from(ops, i)[k],
            ),
    decreases ops.len() - i,
{
    if i < ops.len() {
        lemma_start_lines(ops, i + 1);
        let a = spec_starts_from(ops, i + 1);
        let b = op_start_log(ops[i]);
        assert forall|k: int| 0 <= k < spec_starts_from(ops, i).len() implies is_start_line(
            ops,
            #[trigger] spec_starts_from(ops, i)[k],
        ) by {
            if k < a.len() {
                assert(spec_starts_from(ops, i)[k] == a[k]);
            } else {
                assert(ops[i].is_recording);
                assert(spec_starts_from(ops, i)[k] == start_entry(ops[i].name));
            }
        }
    }
}

proof fn lemma_finish_lines(ops: Seq<OperatorView>, r: int, i: int)
    requires
        0 <= r <= i <= ops.len(),
    ensures
        forall|k: int|
            0 <= k < spec_finishes_upto(ops, r, i).len() ==> is_finish_line(
                ops,
                #[trigger] spec_finishes_upto(ops, r, i)[k],
            ),
    decreases i - r,
{
    if i > r {
        lemma_finish_lines(ops, r, i - 1);
        let a = spec_finishes_upto(ops, r, i - 1);
        assert forall|k: int|
            0 <= k < spec_finishes_upto(ops, r, i).len() implies is_finish_line(
            ops,
            #[trigger] spec_finishes_upto(ops, r, i)[k],
        ) by {
            if k < a.len() {
                assert(spec_finishes_upto(ops, r, i)[k] == a[k]);
            } else {
                assert(ops[i - 1].is_recording);
                assert(spec_finishes_upto(ops, r, i)[k] == finish_entry(ops[i - 1].name));
            }
        }
    }
}

/// Number of recording operators with index in `[lo, hi)`.
pub open spec fn rec_count(ops: Seq<OperatorView>, lo: int, hi: int) -> int
    decreases hi - lo,
    when lo <= hi
{
    if hi <= lo {
        0
    } else {
        rec_count(ops, lo, hi - 1) + (if ops[hi - 1].is_recording {
            1int
        } else {
            0int
        })
    }
}

proof fn lemma_rec_count_split(ops: Seq<OperatorView>, lo: int, mid: int, hi: int)
    requires
        lo <= mid <= hi,
    ensures
        rec_count(ops, lo, hi) == rec_count(ops, lo, mid) + rec_count(ops, mid, hi),
    decreases hi - mid,
{
    if hi > mid {
        lemma_rec_count_split(ops, lo, mid, hi - 1);
    }
}

proof fn lemma_rec_count_nonneg(ops: Seq<OperatorView>, lo: int, hi: int)
    requires
        lo <= hi,
    ensures
        rec_count(ops, lo, hi) >= 0,
    decreases hi - lo,
{
    if hi > lo {
        lemma_rec_count_nonneg(ops, lo, hi - 1);
    }
}

proof fn lemma_starts_len(ops: Seq<OperatorView>, i: int)
    requires
        0 <= i <= ops.len(),
    ensures
        spec_starts_from(ops, i).len() == rec_count(ops, i, ops.len() as int),
    decreases ops.len() - i,
{
    if i < ops.len() {
        lemma_starts_len(ops, i + 1);
        lemma_rec_count_split(ops, i, i + 1, ops.len() as int);
        assert(rec_count(ops, i, i) == 0);
        assert(rec_count(ops, i, i + 1) == (if ops[i].is_recording { 1int } else { 0int }));
    }
}

proof fn lemma_finishes_len(ops: Seq<OperatorView>, r: int, i: int)
    requires
        0 <= r <= i <= ops.len(),
    ensures
        spec_finishes_upto(ops, r, i).len() == rec_count(ops, r, i),
    decreases i - r,
{
    if i > r {
        lemma_finishes_len(ops, r, i - 1);
    }
}

/// The start line of recording operator `j` stands at the position counting
/// the recording operators after it, since the start phase runs backwards.
proof fn lemma_start_pos(ops: Seq<OperatorView>, i: int, j: int)
    requires
        0 <= i <= j < ops.len(),
        ops[j].is_recording,
    ensures
        0 <= rec_count(ops, j + 1, ops.len() as int) < spec_starts_from(ops, i).len(),
        spec_starts_from(ops, i)[rec_count(ops, j + 1, ops.len() as int)] == start_entry(
            ops[j].name,
        ),
    decreases j - i,
{
    let n = ops.len() as int;
    lemma_rec_count_nonneg(ops, j + 1, n);
    lemma_starts_len(ops, i);
    lemma_starts_len(ops, i + 1);
    if i == j {
        assert(spec_starts_from(ops, i) == spec_starts_from(ops, i + 1) + op_start_log(ops[i]));
        lemma_rec_count_split(ops, i + 1, j + 1, n);
        assert(rec_count(ops, i + 1, j + 1) == 0);
        assert(spec_starts_from(ops, i)[spec_starts_from(ops, i + 1).len() as int]
            == start_entry(ops[i].name));
    } else {
        lemma_start_pos(ops, i + 1, j);
        assert(spec_starts_from(ops, i) == spec_starts_from(ops, i + 1) + op_start_log(ops[i]));
        assert(spec_starts_from(ops, i)[rec_count(ops, j + 1, n)] == spec_starts_from(
            ops,
            i + 1,
        )[rec_count(ops, j + 1, n)]);
    }
}

/// The finish line of recording operator `j` stands at the position counting
/// the recording operators before it, since the finish phase runs forwards.
proof fn lemma_finish_pos(ops: Seq<OperatorView>, r: int, i: int, j: int)
    requires
        0 <= r <= j < i <= ops.len(),
        ops[j].is_recording,
    ensures
        0 <= rec_count(ops, r, j) < spec_finishes_upto(ops, r, i).len(),
        spec_finishes_upto(ops, r, i)[rec_count(ops, r, j)] == finish_entry(ops[j].name),
    decreases i - j,
{
    lemma_rec_count_nonneg(ops, r, j);
    lemma_finishes_len(ops, r, i);
    lemma_finishes_len(ops, r, i - 1);
    if i == j + 1 {
        lemma_rec_count_split(ops, r, j, j + 1);
        assert(spec_finishes_upto(ops, r, i)[spec_finishes_upto(ops, r, i - 1).len() as int]
            == finish_entry(ops[j].name));
        lemma_rec_count_split(ops, r, j, i - 1);
    } else {
        lemma_finish_pos(ops, r, i - 1, j);
        assert(spec_finishes_upto(ops, r, i)[rec_count(ops, r, j)] == spec_finishes_upto(
            ops,
            r,
            i - 1,
        )[rec_count(ops, r, j)]);
    }
}

/// Lifecycle discipline of one bundle run.  The log is the start phase, then
/// the drive phase, then the finish phase; the start phase holds only start
/// lines, the drive phase only process lines, the finish phase only finish
/// lines; and each recording non-root operator has its start line in the
/// start phase and its finish line in the finish phase.  Hence no operator
/// processes an element before its start or after its finish, and no
/// operator finishes before every operator has started.
pub proof fn lemma_lifecycle_discipline(ops: Seq<OperatorView>, r: int)
    requires
        ops_wf(ops),
        0 <= r <= ops.len(),
    ensures
        spec_bundle_log(ops, r) == spec_starts_from(ops, r) + spec_drive_upto(ops, r)
            + spec_finishes_upto(ops, r, ops.len() as int),
        forall|k: int|
            0 <= k < spec_starts_from(ops, r).len() ==> is_start_line(
                ops,
                #[trigger] spec_starts_from(ops, r)[k],
            ),
        forall|k: int|
            0 <= k < spec_drive_upto(ops, r).len() ==> is_process_line(
                ops,
                #[trigger] spec_drive_upto(ops, r)[k],
            ),
        forall|k: int|
            0 <= k < spec_finishes_upto(ops, r, ops.len() as int).len() ==> is_finish_line(
                ops,
                #[trigger] spec_finishes_upto(ops, r, ops.len() as int)[k],
            ),
        forall|j: int|
            r <= j < ops.len() && (#[trigger] ops[j]).is_recording ==> spec_starts_from(ops, r)[
                rec_count(ops, j + 1, ops.len() as int)] == start_entry(ops[j].name)
                && spec_finishes_upto(ops, r, ops.len() as int)[rec_count(ops, r, j)]
                == finish_entry(ops[j].name),
{
    lemma_start_lines(ops, r);
    lemma_drive_lines(ops, r);
    lemma_finish_lines(ops, r, ops.len() as int);
    assert forall|j: int|
        r <= j < ops.len() && (#[trigger] ops[j]).is_recording implies spec_starts_from(ops, r)[
        rec_count(ops, j + 1, ops.len() as int)] == start_entry(ops[j].name)
        && spec_finishes_upto(ops, r, ops.len() as int)[rec_count(ops, r, j)] == finish_entry(
        ops[j].name,
    ) by {
        lemma_start_pos(ops, r, j);
        lemma_finish_pos(ops, r, ops.len() as int, j);
    }
}

/// Chain ordering.  If operator `j` is wired as a consumer of operator `i`
/// (it appears in one of `i`'s receivers) and both are recording non-roots,
/// then the start phase starts the consumer `j` before the producer `i`, and
/// the finish phase finishes the producer `i` before the consumer `j`.
pub proof fn lemma_chain_order(ops: Seq<OperatorView>, r: int, i: int, j: int)
    requires
        ops_wf(ops),
        0 <= r <= i < ops.len(),
        0 <= j < ops.len(),
        exists|a: int, x: int|
            0 <= a < ops[i].receivers.len() && 0 <= x < ops[i].receivers[a].len()
                && #[trigger] ops[i].receivers[a][x] == j,
        ops[i].is_recording,
        ops[j].is_recording,
    ensures
        i < j,
        rec_count(ops, j + 1, ops.len() as int) < rec_count(ops, i + 1, ops.len() as int),
        spec_starts_from(ops, r)[rec_count(ops, j + 1, ops.len() as int)] == start_entry(
            ops[j].name,
        ),
        spec_starts_from(ops, r)[rec_count(ops, i + 1, ops.len() as int)] == start_entry(
            ops[i].name,
        ),
        rec_count(ops, r, i) < rec_count(ops, r, j),
        spec_finishes_upto(ops, r, ops.len() as int)[rec_count(ops, r, i)] == finish_entry(
            ops[i].name,
        ),
        spec_finishes_upto(ops, r, ops.len() as int)[rec_count(ops, r, j)] == finish_entry(
            ops[j].name,
        ),
{
    let n = ops.len() as int;
    let (a, x): (int, int) = choose|a: int, x: int|
        0 <= a < ops[i].receivers.len() && 0 <= x < ops[i].receivers[a].len()
            && #[trigger] ops[i].receivers[a][x] == j;
    assert(cons_ok(ops[i].receivers[a], i, n));
    assert(i < j);
    lemma_rec_count_split(ops, i + 1, j + 1, n);
    lemma_rec_count_split(ops, i + 1, j, j + 1);
    lemma_rec_count_nonneg(ops, i + 1, j);
    lemma_start_pos(ops, r, i);
    lemma_start_pos(ops, r, j);
    lemma_rec_count_split(ops, r, i, j);
    lemma_rec_count_split(ops, r, i, i + 1);
    lemma_rec_count_split(ops, r, i + 1, j);
    lemma_rec_count_nonneg(ops, i + 1, j);
    lemma_rec_count_nonneg(ops, r, i);
    lemma_finish_pos(ops, r, n, i);
    lemma_finish_pos(ops, r, n, j);
}

/// Two entry lists describe the same transforms: same canonical names, and
/// the same transform under every name.
pub open spec fn entries_agree(
    e1: Seq<(String, proto::PTransform)>,
    e2: Seq<(String, proto::PTransform)>,
) -> bool {
    &&& canon_names(e1) == canon_names(e2)
    &&& forall|n: Seq<char>| #[trigger] has_entry(e1, n) <==> has_entry(e2, n)
    &&& forall|n: Seq<char>|
        #[trigger] has_entry(e1, n) ==> entry_of(e1, n) == entry_of(e2, n)
}

proof fn lemma_names_multiset(
    e1: Seq<(String, proto::PTransform)>,
    e2: Seq<(String, proto::PTransform)>,
)
    requires
        e1.to_multiset() == e2.to_multiset(),
    ensures
        entry_names(e1).to_multiset() == entry_names(e2).to_multiset(),
    decreases e1.len(),
{
    broadcast use vstd::seq_lib::group_to_multiset_ensures;

    if e1.len() == 0 {
        assert(e1.to_multiset().len() == 0);
        assert(e2.to_multiset().len() == 0);
        assert(e2.len() == 0);
        assert(entry_names(e1) =~= entry_names(e2));
    } else {
        let p = e1.last();
        let li = e1.len() - 1;
        assert(e1[li] == p);
        assert(e1.contains(p));
        assert(e1.to_multiset().contains(p));
        assert(e2.to_multiset().contains(p));
        assert(e2.contains(p));
        let k = choose|k: int| 0 <= k < e2.len() && e2[k] == p;
        let e1p = e1.remove(li);
        let e2p = e2.remove(k);
        assert(e1p.to_multiset() == e1.to_multiset().remove(p));
        assert(e2p.to_multiset() == e2.to_multiset().remove(p));
        lemma_names_multiset(e1p, e2p);
        assert(entry_names(e1p) =~= entry_names(e1).remove(li));
        assert(entry_names(e2p) =~= entry_names(e2).remove(k));
        assert(entry_names(e1).remove(li).to_multiset() == entry_names(e1).to_multiset().remove(
            entry_names(e1)[li],
        ));
        assert(entry_names(e2).remove(k).to_multiset() == entry_names(e2).to_multiset().remove(
            entry_names(e2)[k],
        ));
        assert(entry_names(e1)[li] == p.0@);
        assert(entry_names(e2)[k] == p.0@);
        assert(entry_names(e1).contains(entry_names(e1)[li]));
        assert(entry_names(e1).to_multiset().contains(p.0@));
        assert(entry_names(e2).contains(entry_names(e2)[k]));
        assert(entry_names(e2).to_multiset().contains(p.0@));
        assert forall|x: Seq<char>|
            entry_names(e1).to_multiset().count(x) == entry_names(e2).to_multiset().count(
                x,
            ) by {
            let m1 = entry_names(e1).to_multiset();
            let m2 = entry_names(e2).to_multiset();
            assert(m1.remove(p.0@).count(x) == m2.remove(p.0@).count(x));
        }
        assert(entry_names(e1).to_multiset() =~= entry_names(e2).to_multiset());
    }
}

proof fn lemma_agree_filter(
    e1: Seq<(String, proto::PTransform)>,
    e2: Seq<(String, proto::PTransform)>,
    roots: Seq<Seq<char>>,
    names: Seq<Seq<char>>,
    want_root: bool,
    i: int,
)
    requires
        entries_agree(e1, e2),
        0 <= i <= names.len(),
        forall|k: int| 0 <= k < names.len() ==> has_entry(e1, #[trigger] names[k]),
    ensures
        filter_roots(e1, roots, names, want_root, i) == filter_roots(e2, roots, names, want_root, i),
    decreases i,
{
    if i > 0 {
        lemma_agree_filter(e1, e2, roots, names, want_root, i - 1);
    }
}

proof fn lemma_agree_flat(
    e1: Seq<(String, proto::PTransform)>,
    e2: Seq<(String, proto::PTransform)>,
    names: Seq<Seq<char>>,
    i: int,
)
    requires
        entries_agree(e1, e2),
        0 <= i <= names.len(),
        forall|k: int| 0 <= k < names.len() ==> has_entry(e1, #[trigger] names[k]),
    ensures
        flat_output_chans(e1, names, i) == flat_output_chans(e2, names, i),
    decreases i,
{
    if i > 0 {
        lemma_agree_flat(e1, e2, names, i - 1);
    }
}

proof fn lemma_agree_eligible(
    e1: Seq<(String, proto::PTransform)>,
    e2: Seq<(String, proto::PTransform)>,
    placed: Seq<Seq<char>>,
    n: Seq<char>,
)
    requires
        entries_agree(e1, e2),
        has_entry(e1, n),
        forall|p: int| 0 <= p < placed.len() ==> has_entry(e1, #[trigger] placed[p]),
    ensures
        eligible(e1, placed, n) == eligible(e2, placed, n),
{
    assert forall|chan: Seq<char>|
        producer_placed(e1, placed, chan) == producer_placed(e2, placed, chan) by {
        if producer_placed(e1, placed, chan) {
            let p = choose|p: int|
                0 <= p < placed.len() && produces(e1, #[trigger] placed[p], chan);
            assert(produces(e2, placed[p], chan));
        }
        if producer_placed(e2, placed, chan) {
            let p = choose|p: int|
                0 <= p < placed.len() && produces(e2, #[trigger] placed[p], chan);
            assert(produces(e1, placed[p], chan));
        }
    }
    assert(entry_of(e1, n) == entry_of(e2, n));
    if eligible(e1, placed, n) {
        assert forall|a: int|
            0 <= a < input_chans(entry_of(e2, n)).len() implies producer_placed(
            e2,
            placed,
            #[trigger] input_chans(entry_of(e2, n))[a],
        ) by {
            assert(producer_placed(e1, placed, input_chans(entry_of(e1, n))[a]));
        }
    }
    if eligible(e2, placed, n) {
        assert forall|a: int|
            0 <= a < input_chans(entry_of(e1, n)).len() implies producer_placed(
            e1,
            placed,
            #[trigger] input_chans(entry_of(e1, n))[a],
        ) by {
            assert(producer_placed(e2, placed, input_chans(entry_of(e2, n))[a]));
        }
    }
}

proof fn lemma_agree_first_eligible(
    e1: Seq<(String, proto::PTransform)>,
    e2: Seq<(String, proto::PTransform)>,
    placed: Seq<Seq<char>>,
    rem: Seq<Seq<char>>,
)
    requires
        entries_agree(e1, e2),
        forall|p: int| 0 <= p < placed.len() ==> has_entry(e1, #[trigger] placed[p]),
        forall|k: int| 0 <= k < rem.len() ==> has_entry(e1, #[trigger] rem[k]),
    ensures
        first_eligible_idx(e1, placed, rem) == first_eligible_idx(e2, placed, rem),
    decreases rem.len(),
{
    if rem.len() != 0 {
        lemma_agree_eligible(e1, e2, placed, rem[0]);
        lemma_agree_first_eligible(e1, e2, placed, rem.drop_first());
    }
}

proof fn lemma_first_eligible_bounds(
    entries: Seq<(String, proto::PTransform)>,
    placed: Seq<Seq<char>>,
    rem: Seq<Seq<char>>,
)
    ensures
        0 <= first_eligible_idx(entries, placed, rem) <= rem.len(),
    decreases rem.len(),
{
    if rem.len() != 0 && !eligible(entries, placed, rem[0]) {
        lemma_first_eligible_bounds(entries, placed, rem.drop_first());
    }
}

proof fn lemma_agree_topo(
    e1: Seq<(String, proto::PTransform)>,
    e2: Seq<(String, proto::PTransform)>,
    placed: Seq<Seq<char>>,
    rem: Seq<Seq<char>>,
)
    requires
        entries_agree(e1, e2),
        forall|p: int| 0 <= p < placed.len() ==> has_entry(e1, #[trigger] placed[p]),
        forall|k: int| 0 <= k < rem.len() ==> has_entry(e1, #[trigger] rem[k]),
    ensures
        spec_topo(e1, placed, rem) == spec_topo(e2, placed, rem),
    decreases rem.len(),
{
    if rem.len() != 0 {
        lemma_agree_first_eligible(e1, e2, placed, rem);
        lemma_first_eligible_bounds(e1, placed, rem);
        let fi = first_eligible_idx(e1, placed, rem);
        if 0 <= fi && fi < rem.len() {
            assert forall|p: int| 0 <= p < placed.push(rem[fi]).len() implies has_entry(
                e1,
                #[trigger] placed.push(rem[fi])[p],
            ) by {
                if p < placed.len() {
                    assert(placed.push(rem[fi])[p] == placed[p]);
                } else {
                    assert(placed.push(rem[fi])[p] == rem[fi]);
                }
            }
            assert forall|k: int| 0 <= k < rem.remove(fi).len() implies has_entry(
                e1,
                #[trigger] rem.remove(fi)[k],
            ) by {
                let kk = if k < fi { k } else { k + 1 };
                assert(rem.remove(fi)[k] == rem[kk]);
            }
            lemma_agree_topo(e1, e2, placed.push(rem[fi]), rem.remove(fi));
        }
    }
}

proof fn lemma_agree_cind(
    e1: Seq<(String, proto::PTransform)>,
    e2: Seq<(String, proto::PTransform)>,
    order: Seq<Seq<char>>,
    chan: Seq<char>,
    j: int,
)
    requires
        entries_agree(e1, e2),
        0 <= j <= order.len(),
        forall|p: int| 0 <= p < order.len() ==> has_entry(e1, #[trigger] order[p]),
    ensures
        consumer_indices(e1, order, chan, j) == consumer_indices(e2, order, chan, j),
    decreases j,
{
    if j > 0 {
        lemma_agree_cind(e1, e2, order, chan, j - 1);
    }
}

/// Graph construction is independent of the order in which the descriptor
/// presents its transform entries: two entry lists holding the same entries
/// (in any order) build the same operator table, the same root count, and
/// hence — by `process`'s contract — the same call log.
pub proof fn lemma_build_order_independent(
    e1: Seq<(String, proto::PTransform)>,
    e2: Seq<(String, proto::PTransform)>,
    roots: Seq<Seq<char>>,
)
    requires
        e1.to_multiset() == e2.to_multiset(),
    ensures
        spec_build(e1, roots) == spec_build(e2, roots),
{
    broadcast use vstd::seq_lib::group_to_multiset_ensures;

    lemma_names_multiset(e1, e2);
    lemma_lex_total_ordering();
    entry_names(e1).lemma_sort_by_ensures(lex_leq_fn());
    entry_names(e2).lemma_sort_by_ensures(lex_leq_fn());
    vstd::seq_lib::lemma_sorted_unique(canon_names(e1), canon_names(e2), lex_leq_fn());
    let cn = canon_names(e1);
    if !names_unique(cn) {
    } else {
        lemma_entries_names_distinct(e1);
        lemma_entries_names_distinct(e2);
        assert(entries_agree(e1, e2)) by {
            assert forall|n: Seq<char>| #[trigger] has_entry(e1, n) implies has_entry(e2, n)
                && entry_of(e1, n) == entry_of(e2, n) by {
                let i = choose|i: int| 0 <= i < e1.len() && #[trigger] e1[i].0@ == n;
                let p = e1[i];
                assert(e1.contains(p));
                assert(e1.to_multiset().contains(p));
                assert(e2.to_multiset().contains(p));
                assert(e2.contains(p));
                let k = choose|k: int| 0 <= k < e2.len() && e2[k] == p;
                assert(e2[k].0@ == n);
                assert(has_entry(e2, n));
                let c1 = choose|c: int| 0 <= c < e1.len() && #[trigger] e1[c].0@ == n;
                let c2 = choose|c: int| 0 <= c < e2.len() && #[trigger] e2[c].0@ == n;
                assert(c1 == i);
                assert(c2 == k);
            }
            assert forall|n: Seq<char>| #[trigger] has_entry(e2, n) implies has_entry(
                e1,
                n,
            ) by {
                let i = choose|i: int| 0 <= i < e2.len() && #[trigger] e2[i].0@ == n;
                let p = e2[i];
                assert(e2.contains(p));
                assert(e2.to_multiset().contains(p));
                assert(e1.to_multiset().contains(p));
                assert(e1.contains(p));
                let k = choose|k: int| 0 <= k < e1.len() && e1[k] == p;
                assert(e1[k].0@ == n);
            }
        }
        assert forall|k: int| 0 <= k < cn.len() implies has_entry(e1, #[trigger] cn[k]) by {
            lemma_canon_has_entry(e1, k);
        }
        assert forall|n1: Seq<char>|
            has_entry(e1, n1) implies #[trigger] is_root_name(e1, roots, n1) == is_root_name(
            e2,
            roots,
            n1,
        ) by {}
        // the rejection conditions agree
        assert(roots_have_no_inputs(e1, roots, cn) == roots_have_no_inputs(e2, roots, cn)) by {
            if roots_have_no_inputs(e1, roots, cn) {
                assert forall|i: int|
                    0 <= i < cn.len() && is_root_name(e2, roots, #[trigger] cn[i])
                        implies input_chans(entry_of(e2, cn[i])).len() == 0 by {
                    assert(is_root_name(e1, roots, cn[i]));
                }
            }
            if roots_have_no_inputs(e2, roots, cn) {
                assert forall|i: int|
                    0 <= i < cn.len() && is_root_name(e1, roots, #[trigger] cn[i])
                        implies input_chans(entry_of(e1, cn[i])).len() == 0 by {
                    assert(is_root_name(e2, roots, cn[i]));
                }
            }
        }
        lemma_agree_flat(e1, e2, cn, cn.len() as int);
        assert(all_inputs_produced(e1, cn) == all_inputs_produced(e2, cn)) by {
            if all_inputs_produced(e1, cn) {
                assert forall|i: int, a: int|
                    0 <= i < cn.len() && 0 <= a < input_chans(entry_of(e2, cn[i])).len()
                        implies flat_output_chans(e2, cn, cn.len() as int).contains(
                    #[trigger] input_chans(entry_of(e2, cn[i]))[a],
                ) by {
                    assert(input_chans(entry_of(e2, cn[i]))[a] == input_chans(
                        entry_of(e1, cn[i]),
                    )[a]);
                }
            }
            if all_inputs_produced(e2, cn) {
                assert forall|i: int, a: int|
                    0 <= i < cn.len() && 0 <= a < input_chans(entry_of(e1, cn[i])).len()
                        implies flat_output_chans(e1, cn, cn.len() as int).contains(
                    #[trigger] input_chans(entry_of(e1, cn[i]))[a],
                ) by {
                    assert(input_chans(entry_of(e1, cn[i]))[a] == input_chans(
                        entry_of(e2, cn[i]),
                    )[a]);
                }
            }
        }
        if roots_have_no_inputs(e1, roots, cn) && !seq_has_dup(
            flat_output_chans(e1, cn, cn.len() as int),
        ) && all_inputs_produced(e1, cn) {
            lemma_agree_filter(e1, e2, roots, cn, true, cn.len() as int);
            lemma_agree_filter(e1, e2, roots, cn, false, cn.len() as int);
            let rs = filter_roots(e1, roots, cn, true, cn.len() as int);
            let nrs = filter_roots(e1, roots, cn, false, cn.len() as int);
            assert forall|p: int| 0 <= p < rs.len() implies has_entry(
                e1,
                #[trigger] rs[p],
            ) by {
                lemma_filter_member(e1, roots, cn, true, cn.len() as int, p);
            }
            assert forall|p: int| 0 <= p < nrs.len() implies has_entry(
                e1,
                #[trigger] nrs[p],
            ) by {
                lemma_filter_member(e1, roots, cn, false, cn.len() as int, p);
            }
            lemma_agree_topo(e1, e2, rs, nrs);
            match spec_topo(e1, rs, nrs) {
                None => {},
                Some(t) => {
                    let order = rs + t;
                    lemma_topo_members(e1, rs, nrs);
                    assert forall|p: int| 0 <= p < order.len() implies has_entry(
                        e1,
                        #[trigger] order[p],
                    ) by {
                        if p < rs.len() {
                            assert(order[p] == rs[p]);
                        } else {
                            assert(order[p] == t[p - rs.len()]);
                        }
                    }
                    assert forall|n1: Seq<char>|
                        has_entry(e1, n1) implies #[trigger] spec_receivers(e1, order, n1)
                        == spec_receivers(e2, order, n1) by {
                        assert forall|a: int|
                            0 <= a < output_chans(entry_of(e1, n1)).len()
                                implies consumer_indices(
                                e1,
                                order,
                                #[trigger] output_chans(entry_of(e1, n1))[a],
                                order.len() as int,
                            ) == consumer_indices(
                                e2,
                                order,
                                output_chans(entry_of(e2, n1))[a],
                                order.len() as int,
                            ) by {
                            lemma_agree_cind(
                                e1,
                                e2,
                                order,
                                output_chans(entry_of(e1, n1))[a],
                                order.len() as int,
                            );
                        }
                        assert(spec_receivers(e1, order, n1) =~= spec_receivers(e2, order, n1));
                    }
                    assert(all_ops_buildable(e1, order) == all_ops_buildable(e2, order)) by {
                        assert forall|i: int|
                            0 <= i < order.len() implies (spec_urn_supported(
                            urn_of(entry_of(e1, #[trigger] order[i])),
                        ) && (urn_of(entry_of(e1, order[i])) == crate::urns::CREATE_URN@
                            ==> json_string_list(payload_of(entry_of(e1, order[i]))) is Some))
                            == (spec_urn_supported(urn_of(entry_of(e2, order[i]))) && (urn_of(
                            entry_of(e2, order[i]),
                        ) == crate::urns::CREATE_URN@ ==> json_string_list(
                            payload_of(entry_of(e2, order[i])),
                        ) is Some)) by {}
                    }
                    assert(order_wired_forward(e1, order) == order_wired_forward(e2, order)) by {
                        assert forall|i: int|
                            0 <= i < order.len() implies recs_ok(
                            spec_receivers(e1, order, #[trigger] order[i]),
                            i,
                            order.len() as int,
                        ) == recs_ok(
                            spec_receivers(e2, order, order[i]),
                            i,
                            order.len() as int,
                        ) by {}
                    }
                    if all_ops_buildable(e1, order) && order_wired_forward(e1, order) {
                        assert(Seq::new(order.len(), |i: int| spec_op_at(e1, order, i))
                            =~= Seq::new(order.len(), |i: int| spec_op_at(e2, order, i)));
                    }
                },
            }
        }
    }
}

/// Every name the dependency ordering emits came from the remaining list.
proof fn lemma_topo_members(
    entries: Seq<(String, proto::PTransform)>,
    placed: Seq<Seq<char>>,
    rem: Seq<Seq<char>>,
)
    requires
        spec_topo(entries, placed, rem) is Some,
    ensures
        forall|k: int|
            0 <= k < spec_topo(entries, placed, rem)->Some_0.len() ==> rem.contains(
                #[trigger] spec_topo(entries, placed, rem)->Some_0[k],
            ),
    decreases rem.len(),
{
    if rem.len() != 0 {
        let fi = first_eligible_idx(entries, placed, rem);
        if 0 <= fi && fi < rem.len() {
            lemma_topo_members(entries, placed.push(rem[fi]), rem.remove(fi));
            let t = spec_topo(entries, placed, rem)->Some_0;
            let rest = spec_topo(entries, placed.push(rem[fi]), rem.remove(fi))->Some_0;
            assert forall|k: int| 0 <= k < t.len() implies rem.contains(
                #[trigger] t[k],
            ) by {
                if k == 0 {
                    assert(t[0] == rem[fi]);
                } else {
                    assert(t[k] == rest[k - 1]);
                    assert(rem.remove(fi).contains(rest[k - 1]));
                    let x = choose|x: int|
                        0 <= x < rem.remove(fi).len() && rem.remove(fi)[x] == rest[k - 1];
                    let xx = if x < fi { x } else { x + 1 };
                    assert(rem[xx] == rest[k - 1]);
                }
            }
        }
    }
}

/// The consumer-index list of a channel holds every table position whose
/// transform consumes that channel.
proof fn lemma_cind_contains(
    entries: Seq<(String, proto::PTransform)>,
    order: Seq<Seq<char>>,
    chan: Seq<char>,
    j: int,
)
    requires
        0 <= j < order.len(),
        consumes(entries, order[j], chan),
    ensures
        consumer_indices(entries, order, chan, order.len() as int).contains(j as usize),
{
    let part = consumer_indices(entries, order, chan, j + 1);
    assert(part == consumer_indices(entries, order, chan, j) + seq![j as usize]);
    let pos = part.len() - 1;
    assert(part[pos] == j as usize);
    lemma_cind_prefix(entries, order, chan, j + 1, order.len() as int);
    let full = consumer_indices(entries, order, chan, order.len() as int);
    assert(full[pos] == j as usize);
}

/// Chain ordering, stated against the descriptor: in a graph built from
/// `entries`, if the operator at table position `i` produces a channel that
/// the operator at position `j` consumes (both recording, the producer
/// non-root), then the consumer starts before the producer and the producer
/// finishes before the consumer, at the exact log positions given by
/// `rec_count`.
pub proof fn lemma_chain_order_built(
    entries: Seq<(String, proto::PTransform)>,
    roots: Seq<Seq<char>>,
    ops: Seq<OperatorView>,
    r: int,
    i: int,
    j: int,
    chan: Seq<char>,
)
    requires
        spec_build(entries, roots) == Some((ops, r)),
        0 <= r <= i < ops.len(),
        0 <= j < ops.len(),
        j as usize as int == j,
        output_chans(entry_of(entries, ops[i].name)).contains(chan),
        input_chans(entry_of(entries, ops[j].name)).contains(chan),
        ops[i].is_recording,
        ops[j].is_recording,
    ensures
        i < j,
        ops_wf(ops),
        rec_count(ops, j + 1, ops.len() as int) < rec_count(ops, i + 1, ops.len() as int),
        spec_starts_from(ops, r)[rec_count(ops, j + 1, ops.len() as int)] == start_entry(
            ops[j].name,
        ),
        spec_starts_from(ops, r)[rec_count(ops, i + 1, ops.len() as int)] == start_entry(
            ops[i].name,
        ),
        rec_count(ops, r, i) < rec_count(ops, r, j),
        spec_finishes_upto(ops, r, ops.len() as int)[rec_count(ops, r, i)] == finish_entry(
            ops[i].name,
        ),
        spec_finishes_upto(ops, r, ops.len() as int)[rec_count(ops, r, j)] == finish_entry(
            ops[j].name,
        ),
{
    let cn = canon_names(entries);
    let rs = filter_roots(entries, roots, cn, true, cn.len() as int);
    let nrs = filter_roots(entries, roots, cn, false, cn.len() as int);
    assert(spec_topo(entries, rs, nrs) is Some);
    let t = spec_topo(entries, rs, nrs)->Some_0;
    let order = rs + t;
    assert(ops == Seq::new(order.len(), |q: int| spec_op_at(entries, order, q)));
    assert(order_wired_forward(entries, order));
    assert(ops.len() == order.len());
    assert forall|q: int| 0 <= q < ops.len() implies #[trigger] ops[q] == spec_op_at(
        entries,
        order,
        q,
    ) by {}
    assert(ops[i].name == order[i]);
    assert(ops[j].name == order[j]);
    assert(ops[i].receivers == spec_receivers(entries, order, order[i]));
    assert(ops_wf(ops)) by {
        assert forall|q: int| 0 <= q < ops.len() implies recs_ok(
            #[trigger] ops[q].receivers,
            q,
            ops.len() as int,
        ) by {
            assert(ops[q].receivers == spec_receivers(entries, order, order[q]));
        }
    }
    let a = choose|a: int|
        0 <= a < output_chans(entry_of(entries, order[i])).len() && output_chans(
            entry_of(entries, order[i]),
        )[a] == chan;
    assert(ops[i].receivers[a] == consumer_indices(entries, order, chan, order.len() as int));
    lemma_cind_contains(entries, order, chan, j);
    assert(ops[i].receivers[a].contains(j as usize));
    let x = choose|x: int|
        0 <= x < ops[i].receivers[a].len() && ops[i].receivers[a][x] == j as usize;
    assert(ops[i].receivers[a][x] == j);
    assert(0 <= a < ops[i].receivers.len());
    assert(0 <= x < ops[i].receivers[a].len());
    lemma_chain_order(ops, r, i, j);
}

/// The dependency ordering emits exactly the remaining names, as a multiset.
proof fn lemma_topo_multiset(
    entries: Seq<(String, proto::PTransform)>,
    placed: Seq<Seq<char>>,
    rem: Seq<Seq<char>>,
)
    requires
        spec_topo(entries, placed, rem) is Some,
    ensures
        spec_topo(entries, placed, rem)->Some_0.to_multiset() == rem.to_multiset(),
    decreases rem.len(),
{
    broadcast use vstd::seq_lib::group_to_multiset_ensures;

    if rem.len() == 0 {
        assert(spec_topo(entries, placed, rem)->Some_0.to_multiset() =~= rem.to_multiset());
    } else {
        let fi = first_eligible_idx(entries, placed, rem);
        if 0 <= fi && fi < rem.len() {
            lemma_topo_multiset(entries, placed.push(rem[fi]), rem.remove(fi));
            let rest = spec_topo(entries, placed.push(rem[fi]), rem.remove(fi))->Some_0;
            let t = spec_topo(entries, placed, rem)->Some_0;
            assert(t == seq![rem[fi]] + rest);
            assert(t.drop_first() =~= rest);
            assert(t[0] == rem[fi]);
            assert(t =~= rest.insert(0, rem[fi]));
            assert(rest.insert(0, rem[fi]).to_multiset() == rest.to_multiset().insert(rem[fi]));
            assert(rem.remove(fi).to_multiset() == rem.to_multiset().remove(rem[fi]));
            assert(rem.contains(rem[fi]));
            assert(rem.to_multiset().contains(rem[fi]));
            assert forall|x: Seq<char>|
                t.to_multiset().count(x) == rem.to_multiset().count(x) by {
                assert(rest.to_multiset().count(x) == rem.to_multiset().remove(rem[fi]).count(x));
            }
            assert(t.to_multiset() =~= rem.to_multiset());
        }
    }
}

/// The root filter keeps exactly the names whose root status matches.
proof fn lemma_filter_contains(
    entries: Seq<(String, proto::PTransform)>,
    roots: Seq<Seq<char>>,
    names: Seq<Seq<char>>,
    want_root: bool,
    i: int,
    x: Seq<char>,
)
    requires
        0 <= i <= names.len(),
    ensures
        filter_roots(entries, roots, names, want_root, i).contains(x) <==> (exists|k: int|
            0 <= k < i && names[k] == x && is_root_name(entries, roots, x) == want_root),
    decreases i,
{
    if i > 0 {
        lemma_filter_contains(entries, roots, names, want_root, i - 1, x);
        let prev = filter_roots(entries, roots, names, want_root, i - 1);
        let cur = filter_roots(entries, roots, names, want_root, i);
        if is_root_name(entries, roots, names[i - 1]) == want_root {
            assert(cur =~= prev.push(names[i - 1]));
            if cur.contains(x) {
                let p = choose|p: int| 0 <= p < cur.len() && cur[p] == x;
                if p < prev.len() {
                    assert(prev[p] == x);
                    assert(prev.contains(x));
                } else {
                    assert(names[i - 1] == x);
                }
            }
            if exists|k: int|
                0 <= k < i && names[k] == x && is_root_name(entries, roots, x) == want_root {
                let k = choose|k: int|
                    0 <= k < i && names[k] == x && is_root_name(entries, roots, x) == want_root;
                if k < i - 1 {
                    assert(prev.contains(x));
                    let p = choose|p: int| 0 <= p < prev.len() && prev[p] == x;
                    assert(cur[p] == x);
                } else {
                    assert(cur.last() == x);
                }
            }
        } else {
            assert(cur =~= prev);
            if exists|k: int|
                0 <= k < i && names[k] == x && is_root_name(entries, roots, x) == want_root {
                let k = choose|k: int|
                    0 <= k < i && names[k] == x && is_root_name(entries, roots, x) == want_root;
                assert(k != i - 1);
            }
        }
    }
}

/// Every transform of a built graph stands at a table position carrying its
/// name; a non-root transform stands at or after the root count `r`, a root
/// before it.
pub proof fn lemma_built_position(
    entries: Seq<(String, proto::PTransform)>,
    roots: Seq<Seq<char>>,
    ops: Seq<OperatorView>,
    r: int,
    n: Seq<char>,
)
    requires
        spec_build(entries, roots) == Some((ops, r)),
        has_entry(entries, n),
    ensures
        exists|i: int|
            0 <= i < ops.len() && #[trigger] ops[i].name == n && (i >= r <==> !is_root_name(
                entries,
                roots,
                n,
            )) && ops[i].is_recording == (urn_of(entry_of(entries, n))
                == crate::urns::RECORDING_URN@),
{
    broadcast use vstd::seq_lib::group_to_multiset_ensures;

    let cn = canon_names(entries);
    lemma_lex_total_ordering();
    entry_names(entries).lemma_sort_by_ensures(lex_leq_fn());
    let e = choose|e: int| 0 <= e < entries.len() && #[trigger] entries[e].0@ == n;
    assert(entry_names(entries)[e] == n);
    assert(entry_names(entries).contains(n));
    assert(entry_names(entries).to_multiset().contains(n));
    assert(cn.to_multiset().contains(n));
    assert(cn.contains(n));
    let k = choose|k: int| 0 <= k < cn.len() && cn[k] == n;

    let rs = filter_roots(entries, roots, cn, true, cn.len() as int);
    let nrs = filter_roots(entries, roots, cn, false, cn.len() as int);
    assert(spec_topo(entries, rs, nrs) is Some);
    let t = spec_topo(entries, rs, nrs)->Some_0;
    let order = rs + t;
    assert(ops == Seq::new(order.len(), |q: int| spec_op_at(entries, order, q)));
    assert(r == rs.len());
    assert(ops.len() == order.len());

    if is_root_name(entries, roots, n) {
        lemma_filter_contains(entries, roots, cn, true, cn.len() as int, n);
        assert(rs.contains(n));
        let p = choose|p: int| 0 <= p < rs.len() && rs[p] == n;
        assert(order[p] == n);
        assert(ops[p] == spec_op_at(entries, order, p));
        assert(ops[p].name == n);
        assert(0 <= p < ops.len() && ops[p].name == n && (p >= r <==> !is_root_name(
            entries,
            roots,
            n,
        )) && ops[p].is_recording == (urn_of(entry_of(entries, n))
            == crate::urns::RECORDING_URN@));
    } else {
        lemma_filter_contains(entries, roots, cn, false, cn.len() as int, n);
        assert(nrs.contains(n));
        lemma_topo_multiset(entries, rs, nrs);
        assert(nrs.to_multiset().contains(n));
        assert(t.to_multiset().contains(n));
        assert(t.contains(n));
        let p = choose|p: int| 0 <= p < t.len() && t[p] == n;
        let i = rs.len() + p;
        assert(order[i] == n);
        assert(ops[i] == spec_op_at(entries, order, i));
        assert(ops[i].name == n);
        assert(0 <= i < ops.len() && ops[i].name == n && (i >= r <==> !is_root_name(
            entries,
            roots,
            n,
        )) && ops[i].is_recording == (urn_of(entry_of(entries, n))
            == crate::urns::RECORDING_URN@));
    }
}

/// Chain ordering from the descriptor alone.  If one recording non-root
/// transform `np` produces a channel that another recording transform `nc`
/// consumes, then in the graph built from the descriptor the consumer stands
/// strictly after the producer, is started before it, and is finished after
/// it — at the exact log positions given by `rec_count`.  (The consumer is
/// non-root automatically: roots consume nothing in a built graph.)
pub proof fn lemma_chain_order_from_descriptor(
    entries: Seq<(String, proto::PTransform)>,
    roots: Seq<Seq<char>>,
    ops: Seq<OperatorView>,
    r: int,
    np: Seq<char>,
    nc: Seq<char>,
    chan: Seq<char>,
)
    requires
        spec_build(entries, roots) == Some((ops, r)),
        (ops.len() as usize) as int == ops.len() as int,
        has_entry(entries, np),
        has_entry(entries, nc),
        output_chans(entry_of(entries, np)).contains(chan),
        input_chans(entry_of(entries, nc)).contains(chan),
        urn_of(entry_of(entries, np)) == crate::urns::RECORDING_URN@,
        urn_of(entry_of(entries, nc)) == crate::urns::RECORDING_URN@,
        !is_root_name(entries, roots, np),
    ensures
        exists|i: int, j: int|
            {
                &&& 0 <= r <= i < j < ops.len()
                &&& #[trigger] ops[i].name == np
                &&& #[trigger] ops[j].name == nc
                &&& rec_count(ops, j + 1, ops.len() as int) < rec_count(
                    ops,
                    i + 1,
                    ops.len() as int,
                )
                &&& spec_starts_from(ops, r)[rec_count(ops, j + 1, ops.len() as int)]
                    == start_entry(nc)
                &&& spec_starts_from(ops, r)[rec_count(ops, i + 1, ops.len() as int)]
                    == start_entry(np)
                &&& rec_count(ops, r, i) < rec_count(ops, r, j)
                &&& spec_finishes_upto(ops, r, ops.len() as int)[rec_count(ops, r, i)]
                    == finish_entry(np)
                &&& spec_finishes_upto(ops, r, ops.len() as int)[rec_count(ops, r, j)]
                    == finish_entry(nc)
            },
{
    lemma_built_position(entries, roots, ops, r, np);
    let i = choose|i: int|
        0 <= i < ops.len() && #[trigger] ops[i].name == np && (i >= r <==> !is_root_name(
            entries,
            roots,
            np,
        )) && ops[i].is_recording == (urn_of(entry_of(entries, np))
            == crate::urns::RECORDING_URN@);
    lemma_built_position(entries, roots, ops, r, nc);
    let j = choose|j: int|
        0 <= j < ops.len() && #[trigger] ops[j].name == nc && (j >= r <==> !is_root_name(
            entries,
            roots,
            nc,
        )) && ops[j].is_recording == (urn_of(entry_of(entries, nc))
            == crate::urns::RECORDING_URN@);
    assert(i >= r);
    assert(ops[i].is_recording);
    assert(ops[j].is_recording);
    assert((j as usize) as int == j);
    lemma_chain_order_built(entries, roots, ops, r, i, j, chan);
    assert(0 <= r <= i < j < ops.len() && ops[i].name == np && ops[j].name == nc && rec_count(
        ops,
        j + 1,
        ops.len() as int,
    ) < rec_count(ops, i + 1, ops.len() as int) && spec_starts_from(ops, r)[rec_count(
        ops,
        j + 1,
        ops.len() as int,
    )] == start_entry(nc) && spec_starts_from(ops, r)[rec_count(ops, i + 1, ops.len() as int)]
        == start_entry(np) && rec_count(ops, r, i) < rec_count(ops, r, j) && spec_finishes_upto(
        ops,
        r,
        ops.len() as int,
    )[rec_count(ops, r, i)] == finish_entry(np) && spec_finishes_upto(ops, r, ops.len() as int)[
        rec_count(ops, r, j)] == finish_entry(nc));
}

} // verus!
