//! What the two devices hand to each other is there when it is read: no lane reads a
//! value that another may still be writing.

use vstd::prelude::*;
use crate::layer_attention;
use crate::layer_compress;
use crate::layer_ops::{
    CompressorState, DumpPoint, IndexerState, Lane, LayerFacts, LayerKnobs, LayerState, MoeKind, Op,
    Signal, Site, TokenState,
};
use crate::layer_ops;
use crate::layer_plan::MoeSetup;
use crate::layer_plan;
use crate::layer_value_laws;

verus! {

/// Who reads and writes.
pub enum Party {
    On(Lane),
    Host,
}

/// What is handed from one party to another.
pub enum Item {
    FfnIn,
    Picks,
    SentIn,
    SentPicks,
    Routed,
    Sum,
    ExpertIn,
}

/// What an announcement is known by.
pub enum Notice {
    Event(Signal),
    /// The layer's signal for its routed experts.
    Raised(u32),
}

/// Who would see the last value of each item, and what each notice vouches for.
#[verifier::ext_equal]
pub struct Sight {
    pub seen: Set<(Item, Party)>,
    pub vouched: Set<(Notice, Item)>,
}

/// Everybody sees everything.
pub open spec fn settled_sight() -> Sight {
    Sight { seen: Set::new(|p: (Item, Party)| true), vouched: Set::empty() }
}

/// Who carries an operation out.
pub open spec fn party_of(op: Op) -> Party {
    match op {
        Op::PushFfnInput | Op::PushSelected | Op::RaiseMoeSignal { .. } => Party::On(Lane::Xfer),
        Op::RoutedMoe { .. } | Op::WaitMoeSignal { .. } => Party::On(Lane::IgpuCompute),
        Op::PushMoe => Party::On(Lane::IgpuXfer),
        Op::ReadPicks | Op::Submit | Op::Ensure { .. } | Op::MarkRemote | Op::VerifyRouting
        | Op::AwaitRemote => Party::Host,
        _ => Party::On(Lane::Compute),
    }
}

/// An operation reads an item.
pub open spec fn reads(op: Op, item: Item) -> bool {
    match op {
        Op::PushFfnInput | Op::RouterLogits | Op::SharedExpert | Op::QuantizeMoeInput => item
            == Item::FfnIn,
        Op::PushSelected | Op::ReadPicks => item == Item::Picks,
        Op::HotMoe => item == Item::FfnIn || item == Item::Picks,
        Op::RoutedMoe { .. } => item == Item::SentIn || item == Item::SentPicks,
        Op::PushMoe => item == Item::Routed,
        Op::AddRemote | Op::AddShared | Op::AddHot | Op::MhcPostFfn => item == Item::Sum,
        Op::Submit => item == Item::ExpertIn,
        _ => false,
    }
}

/// An operation writes an item.
pub open spec fn writes(op: Op, item: Item) -> bool {
    match op {
        Op::MhcChain { site, .. } => site == Site::Ffn && item == Item::FfnIn,
        Op::MhcFused { site } => site == Site::Ffn && item == Item::FfnIn,
        Op::MhcCollapse { site } => site == Site::Ffn && item == Item::FfnIn,
        Op::RouterTopk | Op::HashRoute => item == Item::Picks,
        Op::PushFfnInput => item == Item::SentIn,
        Op::PushSelected => item == Item::SentPicks,
        Op::RoutedMoe { .. } => item == Item::Routed,
        Op::PushMoe | Op::AddRemote | Op::AddShared | Op::AddHot => item == Item::Sum,
        Op::QuantizeMoeInput => item == Item::ExpertIn,
        _ => false,
    }
}

/// A notice vouches for what its party sees when it is given, until that is written
/// again; whoever waits for it sees that from there on. Waiting for a lane to end shows
/// everybody what the lane sees.
pub open spec fn after_op(v: Sight, op: Op) -> Sight {
    match op {
        Op::Record { signal, lane } => notice_given(v, Notice::Event(signal), Party::On(lane)),
        Op::Wait { signal, lane } => notice_taken(v, Notice::Event(signal), Party::On(lane)),
        Op::RaiseMoeSignal { seq } => notice_given(v, Notice::Raised(seq), party_of(op)),
        Op::WaitMoeSignal { seq } => notice_taken(v, Notice::Raised(seq), party_of(op)),
        Op::Sync { lane } => Sight {
            seen: Set::new(
                |p: (Item, Party)|
                    v.seen.contains(p) || v.seen.contains((p.0, Party::On(lane))),
            ),
            ..v
        },
        _ => Sight {
            seen: Set::new(
                |p: (Item, Party)|
                    if writes(op, p.0) {
                        p.1 == party_of(op)
                    } else {
                        v.seen.contains(p)
                    },
            ),
            vouched: Set::new(
                |p: (Notice, Item)| v.vouched.contains(p) && !writes(op, p.1),
            ),
        },
    }
}

pub open spec fn notice_given(v: Sight, n: Notice, by: Party) -> Sight {
    Sight {
        vouched: Set::new(
            |p: (Notice, Item)|
                if p.0 == n {
                    v.seen.contains((p.1, by))
                } else {
                    v.vouched.contains(p)
                },
        ),
        ..v
    }
}

pub open spec fn notice_taken(v: Sight, n: Notice, by: Party) -> Sight {
    Sight {
        seen: Set::new(
            |p: (Item, Party)|
                v.seen.contains(p) || (p.1 == by && v.vouched.contains((n, p.0))),
        ),
        ..v
    }
}

/// Who sees what after some operations.
pub open spec fn sight(v: Sight, ops: Seq<Op>) -> Sight
    decreases ops.len(),
{
    if ops.len() == 0 {
        v
    } else {
        after_op(sight(v, ops.drop_last()), ops.last())
    }
}

/// Every operation sees what it reads.
pub open spec fn safe(v: Sight, ops: Seq<Op>) -> bool
    decreases ops.len(),
{
    ops.len() == 0 || (safe(v, ops.drop_last()) && forall|item: Item|
        #[trigger] reads(ops.last(), item) ==> sight(v, ops.drop_last()).seen.contains(
            (item, party_of(ops.last())),
        ))
}

broadcast proof fn lemma_push_sight(v: Sight, ops: Seq<Op>, op: Op)
    ensures
        #[trigger] sight(v, ops.push(op)) == after_op(sight(v, ops), op),
{
    assert(ops.push(op).drop_last() =~= ops);
}

broadcast proof fn lemma_push_safe(v: Sight, ops: Seq<Op>, op: Op)
    ensures
        #[trigger] safe(v, ops.push(op)) == (safe(v, ops) && forall|item: Item|
            #[trigger] reads(op, item) ==> sight(v, ops).seen.contains((item, party_of(op)))),
{
    assert(ops.push(op).drop_last() =~= ops);
}

proof fn lemma_behind(v: Sight, a: Seq<Op>, b: Seq<Op>)
    ensures
        sight(v, a + b) == sight(sight(v, a), b),
        safe(v, a + b) == (safe(v, a) && safe(sight(v, a), b)),
    decreases b.len(),
{
    if b.len() == 0 {
        assert(a + b =~= a);
    } else {
        lemma_behind(v, a, b.drop_last());
        assert((a + b).drop_last() =~= a + b.drop_last());
        assert((a + b).last() == b.last());
    }
}

/// An operation that neither reads nor writes an item.
spec fn quiet(op: Op) -> bool {
    match op {
        Op::MhcChain { site, .. } => site == Site::Attn,
        Op::MhcFused { site } => site == Site::Attn,
        Op::MhcCollapse { site } => site == Site::Attn,
        Op::PushFfnInput | Op::RouterLogits | Op::SharedExpert | Op::QuantizeMoeInput
        | Op::PushSelected | Op::ReadPicks | Op::HotMoe | Op::RoutedMoe { .. } | Op::PushMoe
        | Op::AddRemote | Op::AddShared | Op::AddHot | Op::MhcPostFfn | Op::Submit
        | Op::RouterTopk | Op::HashRoute => false,
        _ => true,
    }
}

/// Every operation is quiet.
spec fn all_quiet(ops: Seq<Op>) -> bool {
    forall|i: int| 0 <= i < ops.len() ==> quiet(#[trigger] ops[i])
}

broadcast proof fn lemma_push_quiet(ops: Seq<Op>, op: Op)
    ensures
        #[trigger] all_quiet(ops.push(op)) == (all_quiet(ops) && quiet(op)),
{
    let more = ops.push(op);
    if all_quiet(more) {
        assert(quiet(more[ops.len() as int]));
        assert forall|i: int| 0 <= i < ops.len() implies quiet(#[trigger] ops[i]) by {
            assert(more[i] == ops[i]);
        }
    }
}

/// While nothing is written, everybody goes on to see everything.
proof fn lemma_quiet(v: Sight, ops: Seq<Op>)
    requires
        all_quiet(ops),
        forall|p: (Item, Party)| #[trigger] v.seen.contains(p),
    ensures
        forall|p: (Item, Party)| #[trigger] sight(v, ops).seen.contains(p),
        safe(v, ops),
    decreases ops.len(),
{
    if ops.len() > 0 {
        assert(all_quiet(ops.drop_last())) by {
            assert forall|i: int| 0 <= i < ops.len() - 1 implies quiet(
                #[trigger] ops.drop_last()[i],
            ) by {
                assert(ops.drop_last()[i] == ops[i]);
            }
        }
        lemma_quiet(v, ops.drop_last());
        let op = ops.last();
        assert(quiet(ops[ops.len() - 1]));
        let w = sight(v, ops.drop_last());
        assert forall|p: (Item, Party)| #[trigger] after_op(w, op).seen.contains(p) by {
            assert(w.seen.contains(p));
            assert(!writes(op, p.0));
        }
    }
}

proof fn lemma_begun_quiet(k: LayerKnobs, f: LayerFacts, pos: u32, s: LayerState, t: TokenState)
    ensures
        all_quiet(layer_plan::begun(k, f, pos, s, t).ops),
{
    broadcast use lemma_push_quiet;

    assert(all_quiet(layer_plan::begin_ops(Seq::empty(), k, f, t)));
}

proof fn lemma_row_quiet(
    ops: Seq<Op>,
    k: LayerKnobs,
    f: LayerFacts,
    pos: u32,
    c: CompressorState,
)
    requires
        all_quiet(ops),
    ensures
        all_quiet(layer_compress::row_ops(ops, k, f, pos, c)),
{
    broadcast use lemma_push_quiet;

}

proof fn lemma_compressor_quiet(
    ops: Seq<Op>,
    k: LayerKnobs,
    f: LayerFacts,
    pos: u32,
    c: Option<CompressorState>,
)
    requires
        all_quiet(ops),
    ensures
        all_quiet(layer_compress::compressor_ops(ops, k, f, pos, c)),
{
    broadcast use lemma_push_quiet;

    if layer_compress::compresses(f) && c is Some {
        let ops = ops.push(Op::CompProject { gated: f.ratio != 1 });
        let ops = layer_ops::push_if(
            ops,
            f.ratio != 1,
            Op::CompStateWrite {
                row: layer_compress::state_row(f.ratio, pos) as u32,
                pos_mod: pos % f.ratio,
            },
        );
        lemma_row_quiet(ops, k, f, pos, c->0);
    }
}

proof fn lemma_index_quiet(ops: Seq<Op>, f: LayerFacts, pos: u32, i: Option<IndexerState>)
    requires
        all_quiet(ops),
    ensures
        all_quiet(layer_compress::indexer_compressor_ops(ops, f, pos, i)),
{
    broadcast use lemma_push_quiet;

}

proof fn lemma_indexer_quiet(
    ops: Seq<Op>,
    k: LayerKnobs,
    f: LayerFacts,
    pos: u32,
    s: LayerState,
)
    requires
        all_quiet(ops),
    ensures
        all_quiet(layer_attention::indexer_ops(ops, k, f, pos, s)),
{
    broadcast use lemma_push_quiet;

}

proof fn lemma_attention_quiet(
    ops: Seq<Op>,
    k: LayerKnobs,
    f: LayerFacts,
    pos: u32,
    s: LayerState,
    t: TokenState,
)
    requires
        all_quiet(ops),
    ensures
        all_quiet(layer_attention::attention_ops(ops, k, f, pos, s, t)),
{
    broadcast use lemma_push_quiet;

    lemma_indexer_quiet(ops, k, f, pos, s);
}

/// Everybody sees everything.
spec fn open_sight(v: Sight) -> bool {
    forall|p: (Item, Party)| #[trigger] v.seen.contains(p)
}

proof fn lemma_output(v: Sight, ops: Seq<Op>, k: LayerKnobs, pos: u32)
    requires
        !k.mhc_split,
        safe(v, ops),
        open_sight(sight(v, ops)),
    ensures
        ({
            let all = layer_plan::output_ops(ops, k, pos);
            let w = sight(v, all);
            &&& safe(v, all)
            &&& w.seen.contains((Item::FfnIn, Party::On(Lane::Compute)))
            &&& w.seen.contains((Item::SentIn, Party::On(Lane::Xfer)))
            &&& !k.parallel ==> open_sight(w)
            &&& forall|item: Item, by: Party|
                item != Item::FfnIn && item != Item::SentIn ==> #[trigger] w.seen.contains(
                    (item, by),
                )
        }),
{
    broadcast use {lemma_push_sight, lemma_push_safe};

    let a = ops.push(Op::OutRope { pos });
    let a2 = layer_plan::dump_ops(a, k, DumpPoint::Heads).push(Op::OutProject);
    let a3 = layer_plan::dump_ops(a2, k, DumpPoint::AttnOut).push(Op::MhcPostAttn);
    assert(open_sight(sight(v, a)));
    assert(open_sight(sight(v, a2)) && safe(v, a2));
    assert(open_sight(sight(v, a3)) && safe(v, a3));
    let a4 = layer_plan::mix_ops(a3, k, Site::Ffn);
    let x = sight(v, a4);
    assert(safe(v, a4));
    assert(x.seen.contains((Item::FfnIn, Party::On(Lane::Compute))));
    assert(forall|item: Item, by: Party|
        item != Item::FfnIn ==> #[trigger] x.seen.contains((item, by)));
}

/// What the first part leaves: the feed-forward half's input and picks with the first
/// device, and both with the second one, or announced to it.
spec fn handed_over(v: Sight, parallel: bool, seq: u32) -> bool {
    let compute = Party::On(Lane::Compute);
    let picked = Notice::Event(Signal::SelectedPushed);
    &&& v.seen.contains((Item::FfnIn, compute))
    &&& v.seen.contains((Item::Picks, compute))
    &&& parallel ==> {
        &&& v.vouched.contains((picked, Item::SentIn))
        &&& v.vouched.contains((picked, Item::SentPicks))
        &&& v.vouched.contains((Notice::Raised(seq), Item::SentIn))
        &&& v.vouched.contains((Notice::Raised(seq), Item::SentPicks))
    }
    &&& !parallel ==> open_sight(v)
}

proof fn lemma_route(
    v: Sight,
    ops: Seq<Op>,
    k: LayerKnobs,
    f: LayerFacts,
    seq: u32,
)
    requires
        layer_plan::router_stop(f) is None,
        safe(v, ops),
        sight(v, ops).seen.contains((Item::FfnIn, Party::On(Lane::Compute))),
        sight(v, ops).seen.contains((Item::SentIn, Party::On(Lane::Xfer))),
        !k.parallel ==> open_sight(sight(v, ops)),
    ensures
        ({
            let all = layer_plan::select_ops(layer_plan::router_ops(ops, k, f), k, seq);
            safe(v, all) && handed_over(sight(v, all), k.parallel, seq)
        }),
{
    broadcast use {lemma_push_sight, lemma_push_safe};

    let compute = Party::On(Lane::Compute);
    let a = layer_plan::router_ops(ops, k, f);
    let x = sight(v, a);
    assert(safe(v, a));
    assert(x.seen.contains((Item::FfnIn, compute)));
    assert(x.seen.contains((Item::Picks, compute)));
    assert(x.seen.contains((Item::SentIn, Party::On(Lane::Xfer))));
    assert(!k.parallel ==> forall|item: Item, by: Party|
        item != Item::Picks ==> #[trigger] x.seen.contains((item, by)));
    let b = layer_plan::handoff_ops(
        a.push(Op::RecordPicks),
        k.parallel,
        Signal::SelectedReady,
        Lane::Compute,
        Lane::Xfer,
    );
    let y = sight(v, b);
    assert(safe(v, b));
    assert(y.seen.contains((Item::Picks, Party::On(Lane::Xfer))));
    assert(y.seen.contains((Item::Picks, compute)));
    assert(y.seen.contains((Item::FfnIn, compute)));
    assert(y.seen.contains((Item::SentIn, Party::On(Lane::Xfer))));
    assert(!k.parallel ==> open_sight(y));
    let c = b.push(Op::PushSelected);
    let z = sight(v, c);
    assert(safe(v, c));
    assert(z.seen.contains((Item::SentPicks, Party::On(Lane::Xfer))));
    assert(z.seen.contains((Item::SentIn, Party::On(Lane::Xfer))));
    assert(z.seen.contains((Item::Picks, compute)));
    assert(z.seen.contains((Item::FfnIn, compute)));
}

proof fn lemma_first_part(
    v: Sight,
    k: LayerKnobs,
    f: LayerFacts,
    pos: u32,
    s: LayerState,
    t: TokenState,
)
    requires
        !k.mhc_split,
        open_sight(v),
        layer_plan::first_part(k, f, pos, s, t).stop is None,
    ensures
        ({
            let ops = layer_plan::first_part(k, f, pos, s, t).ops;
            safe(v, ops) && handed_over(sight(v, ops), k.parallel, t.seq)
        }),
{
    let begun = layer_plan::begun(k, f, pos, s, t);
    let compressed = layer_plan::compressed(begun, k, f, pos);
    let indexed = layer_plan::indexed(compressed, f, pos);
    let attended = layer_plan::attended(indexed, k, f, pos);
    lemma_begun_quiet(k, f, pos, s, t);
    lemma_compressor_quiet(begun.ops, k, f, pos, begun.state.compressor);
    lemma_index_quiet(compressed.ops, f, pos, compressed.state.indexer);
    lemma_attention_quiet(indexed.ops, k, f, pos, indexed.state, indexed.token);
    lemma_quiet(v, attended.ops);
    lemma_output(v, attended.ops, k, pos);
    lemma_route(v, layer_plan::output_ops(attended.ops, k, pos), k, f, attended.token.seq);
}

/// What the routed experts' way back leaves: their sum with the first device, or
/// announced to it.
spec fn sent_back(v: Sight, parallel: bool) -> bool {
    &&& parallel ==> v.vouched.contains((Notice::Event(Signal::MoeArrived), Item::Sum))
    &&& !parallel ==> v.seen.contains((Item::Sum, Party::On(Lane::Compute)))
}

proof fn lemma_return(v: Sight, ops: Seq<Op>, k: LayerKnobs)
    requires
        safe(v, ops),
        sight(v, ops).seen.contains((Item::Routed, Party::On(Lane::IgpuCompute))),
    ensures
        ({
            let all = layer_plan::return_ops(ops, k);
            &&& safe(v, all)
            &&& sent_back(sight(v, all), k.parallel)
            &&& sight(v, ops).seen.contains((Item::FfnIn, Party::On(Lane::Compute)))
                ==> sight(v, all).seen.contains((Item::FfnIn, Party::On(Lane::Compute)))
        }),
{
    broadcast use {lemma_push_sight, lemma_push_safe};

    let a = layer_plan::handoff_ops(
        ops,
        k.parallel,
        Signal::MoeDone,
        Lane::IgpuCompute,
        Lane::IgpuXfer,
    );
    assert(sight(v, a).seen.contains((Item::Routed, Party::On(Lane::IgpuXfer))));
    assert(safe(v, a));
}

proof fn lemma_ahead(v: Sight, seq: u32)
    requires
        handed_over(v, true, seq),
    ensures
        safe(v, layer_plan::ahead_ops(seq)),
        sent_back(sight(v, layer_plan::ahead_ops(seq)), true),
        sight(v, layer_plan::ahead_ops(seq)).seen.contains(
            (Item::FfnIn, Party::On(Lane::Compute)),
        ),
        sight(v, layer_plan::ahead_ops(seq)).seen.contains(
            (Item::Picks, Party::On(Lane::Compute)),
        ),
{
    broadcast use {lemma_push_sight, lemma_push_safe};

    assert(sight(v, Seq::empty()) == v);
    let a = Seq::<Op>::empty().push(Op::WaitMoeSignal { seq });
    let x = sight(v, a);
    assert(safe(v, a));
    assert(x.seen.contains((Item::SentIn, Party::On(Lane::IgpuCompute))));
    assert(x.seen.contains((Item::SentPicks, Party::On(Lane::IgpuCompute))));
}

/// The first device sees the feed-forward half's input and picks.
spec fn halfway(v: Sight) -> bool {
    &&& v.seen.contains((Item::FfnIn, Party::On(Lane::Compute)))
    &&& v.seen.contains((Item::Picks, Party::On(Lane::Compute)))
}

/// The second device sees what was sent to it.
spec fn arrived(v: Sight) -> bool {
    &&& v.seen.contains((Item::SentIn, Party::On(Lane::IgpuCompute)))
    &&& v.seen.contains((Item::SentPicks, Party::On(Lane::IgpuCompute)))
}

/// The second part's work on the first device.
spec fn beside_ops(k: LayerKnobs, f: LayerFacts, m: MoeSetup) -> Seq<Op> {
    let ops = layer_ops::push_if(
        Seq::empty(),
        k.parallel && !layer_plan::defers_shared(k, m),
        Op::SharedExpert,
    );
    let ops = layer_ops::push_if(ops, layer_plan::hoists_input(k, f, m), Op::QuantizeMoeInput);
    layer_ops::push_if(ops, k.parallel && f.hot, Op::HotMoe)
}

proof fn lemma_beside(v: Sight, k: LayerKnobs, f: LayerFacts, m: MoeSetup, seq: u32)
    requires
        halfway(v),
    ensures
        ({
            let ops = beside_ops(k, f, m);
            let w = sight(v, ops);
            &&& safe(v, ops)
            &&& halfway(w)
            &&& handed_over(v, k.parallel, seq) ==> (k.parallel ==> handed_over(w, true, seq))
            &&& handed_over(v, k.parallel, seq) && !k.parallel ==> w == v
            &&& sent_back(v, k.parallel) ==> sent_back(w, k.parallel)
            &&& layer_plan::hoists_input(k, f, m) ==> w.seen.contains(
                (Item::ExpertIn, Party::On(Lane::Compute)),
            )
        }),
{
    broadcast use {lemma_push_sight, lemma_push_safe};

    assert(sight(v, Seq::empty()) == v);
}

/// The second part, and the part that serves the picks where there is one.
proof fn lemma_moe(
    v: Sight,
    k: LayerKnobs,
    f: LayerFacts,
    m: MoeSetup,
    remote: bool,
    cap: u32,
    seq: u32,
)
    requires
        !m.preissued,
        layer_plan::moe_stop(f, m) is None,
        handed_over(v, k.parallel, seq),
        halfway(v),
    ensures
        ({
            let a = layer_plan::moe_ops(Seq::empty(), k, f, m);
            let b = if m.paged {
                layer_plan::pick_ops(Seq::empty(), k, f, m, remote, cap)
            } else {
                Seq::empty()
            };
            let w = sight(sight(v, a), b);
            &&& safe(v, a)
            &&& safe(sight(v, a), b)
            &&& sent_back(w, k.parallel)
            &&& w.seen.contains((Item::FfnIn, Party::On(Lane::Compute)))
        }),
{
    broadcast use {lemma_push_sight, lemma_push_safe};

    lemma_beside(v, k, f, m, seq);
    let c = layer_ops::push_if(
        beside_ops(k, f, m),
        k.parallel,
        Op::Wait { signal: Signal::SelectedPushed, lane: Lane::IgpuCompute },
    );
    let x = sight(v, c);
    assert(safe(v, c));
    assert(halfway(x));
    assert(arrived(x));
    if m.paged {
        lemma_picks(x, k, f, m, remote, cap);
        let d = c.push(Op::Sync { lane: Lane::Compute }).push(Op::ReadPicks);
        assert(layer_plan::moe_ops(Seq::empty(), k, f, m) == d);
        assert(safe(v, d));
    } else {
        let d = c.push(layer_plan::resident_moe(f, m));
        assert(safe(v, d));
        assert(sight(v, d).seen.contains((Item::Routed, Party::On(Lane::IgpuCompute))));
        assert(sight(v, d).seen.contains((Item::FfnIn, Party::On(Lane::Compute))));
        lemma_return(v, d, k);
        assert(sight(sight(v, layer_plan::moe_ops(Seq::empty(), k, f, m)), Seq::empty())
            == sight(v, layer_plan::moe_ops(Seq::empty(), k, f, m)));
    }
}

proof fn lemma_picks(x: Sight, k: LayerKnobs, f: LayerFacts, m: MoeSetup, remote: bool, cap: u32)
    requires
        halfway(x),
        arrived(x),
        layer_plan::hoists_input(k, f, m) ==> x.seen.contains(
            (Item::ExpertIn, Party::On(Lane::Compute)),
        ),
    ensures
        ({
            let y = after_op(after_op(x, Op::Sync { lane: Lane::Compute }), Op::ReadPicks);
            let b = layer_plan::pick_ops(Seq::empty(), k, f, m, remote, cap);
            let w = sight(y, b);
            &&& after_op(x, Op::Sync { lane: Lane::Compute }).seen.contains(
                (Item::Picks, Party::Host),
            )
            &&& safe(y, b)
            &&& sent_back(w, k.parallel)
            &&& w.seen.contains((Item::FfnIn, Party::On(Lane::Compute)))
        }),
{
    broadcast use {lemma_push_sight, lemma_push_safe};

    let y = after_op(after_op(x, Op::Sync { lane: Lane::Compute }), Op::ReadPicks);
    assert(sight(y, Seq::empty()) == y);
    assert(halfway(y) && arrived(y));
    let a = if remote {
        let ops = if layer_plan::hoists_input(k, f, m) {
            Seq::empty()
        } else {
            Seq::<Op>::empty().push(Op::QuantizeMoeInput).push(Op::Sync { lane: Lane::Compute })
        };
        ops.push(Op::Submit)
    } else {
        Seq::empty()
    };
    assert(safe(y, a));
    assert(halfway(sight(y, a)) && arrived(sight(y, a)));
    let b = layer_ops::push_if(a, layer_plan::defers_shared(k, m), Op::SharedExpert).push(
        Op::Ensure { batched: k.batch_miss },
    );
    let b = layer_ops::push_if(b, remote, Op::MarkRemote).push(Op::VerifyRouting);
    assert(safe(y, b));
    assert(halfway(sight(y, b)) && arrived(sight(y, b)));
    let c = b.push(Op::RoutedMoe { kind: MoeKind::Paged, cap });
    assert(safe(y, c));
    assert(sight(y, c).seen.contains((Item::Routed, Party::On(Lane::IgpuCompute))));
    assert(sight(y, c).seen.contains((Item::FfnIn, Party::On(Lane::Compute))));
    lemma_return(y, c, k);
}

proof fn lemma_finish(v: Sight, k: LayerKnobs, f: LayerFacts, partial: Option<usize>)
    requires
        sent_back(v, k.parallel),
        v.seen.contains((Item::FfnIn, Party::On(Lane::Compute))),
    ensures
        ({
            let a = layer_plan::arrive_ops(Seq::empty(), k, partial is Some);
            let b = layer_plan::finish_ops(Seq::empty(), k, f, partial);
            safe(v, a) && safe(sight(v, a), b)
        }),
{
    broadcast use {lemma_push_sight, lemma_push_safe};

    assert(sight(v, Seq::empty()) == v);
    let a = layer_plan::arrive_ops(Seq::empty(), k, partial is Some);
    assert(safe(v, a));
    let x = sight(v, a);
    assert(x.seen.contains((Item::Sum, Party::On(Lane::Compute))));
    assert(sight(x, Seq::empty()) == x);
}

/// Whatever a layer's operations read was written by the one that reads it, or was
/// handed over: behind the writing its lane announced it and the reader waited for
/// that, or everybody waited for the lane to end. So no lane reads what another may
/// still be writing. A mix on a lane of its own is left out here.
pub proof fn every_value_is_there_when_it_is_read(
    k: LayerKnobs,
    f: LayerFacts,
    pos: u32,
    s: LayerState,
    t: TokenState,
    m: MoeSetup,
    remote: bool,
    cap: u32,
    partial: Option<usize>,
)
    requires
        !k.mhc_split,
        layer_plan::first_part(k, f, pos, s, t).stop is None,
        layer_plan::moe_stop(f, m) is None,
        m.preissued ==> k.parallel,
    ensures
        safe(
            settled_sight(),
            layer_value_laws::in_order(k, f, pos, s, t, m, remote, cap, partial),
        ),
{
    let v = settled_sight();
    let o0 = layer_plan::first_part(k, f, pos, s, t).ops;
    lemma_first_part(v, k, f, pos, s, t);
    let u = sight(v, o0);
    let p1 = if m.preissued {
        layer_plan::ahead_ops(t.seq)
    } else {
        Seq::empty()
    };
    let p2 = layer_plan::moe_ops(Seq::empty(), k, f, m);
    let p3 = if m.paged && !m.preissued {
        layer_plan::pick_ops(Seq::empty(), k, f, m, remote, cap)
    } else {
        Seq::empty()
    };
    let p4 = layer_plan::arrive_ops(Seq::empty(), k, partial is Some);
    let p5 = layer_plan::finish_ops(Seq::empty(), k, f, partial);
    lemma_behind(v, o0, p1);
    lemma_behind(v, o0 + p1, p2);
    lemma_behind(v, o0 + p1 + p2, p3);
    lemma_behind(v, o0 + p1 + p2 + p3, p4);
    lemma_behind(v, o0 + p1 + p2 + p3 + p4, p5);
    assert(sight(u, Seq::empty()) == u);
    if m.preissued {
        lemma_ahead(u, t.seq);
        let x = sight(u, p1);
        lemma_beside(x, k, f, m, t.seq);
        assert(p2 == beside_ops(k, f, m));
        assert(sight(sight(x, p2), Seq::empty()) == sight(x, p2));
    } else {
        lemma_moe(u, k, f, m, remote, cap, t.seq);
    }
    lemma_finish(sight(v, o0 + p1 + p2 + p3), k, f, partial);
}

/// A mix on a lane of its own starts behind the residual, lets the input be collapsed
/// with the weights from before, and leaves its own weights only behind that; its end
/// is announced.
pub proof fn a_mix_on_its_own_lane_is_handed_over(ops: Seq<Op>, k: LayerKnobs, site: Site)
    requires
        k.mhc_split,
    ensures
        ({
            let after = layer_plan::mix_ops(ops, k, site);
            let n = ops.len() as int;
            let (source, collapse, mixes) = match site {
                Site::Attn => (
                    Signal::HcSrcAttn,
                    Signal::HcCollapseAttn,
                    Signal::HcMixesAttn,
                ),
                Site::Ffn => (Signal::HcSrcFfn, Signal::HcCollapseFfn, Signal::HcMixesFfn),
            };
            &&& after.len() == n + 8
            &&& after.take(n) == ops
            &&& after[n] == (Op::Record { signal: source, lane: Lane::Compute })
            &&& after[n + 1] == (Op::Wait { signal: source, lane: Lane::Hc })
            &&& after[n + 2] is MhcMixes
            &&& after[n + 3] == (Op::MhcCollapse { site })
            &&& after[n + 4] == (Op::Record { signal: collapse, lane: Lane::Compute })
            &&& after[n + 5] == (Op::Wait { signal: collapse, lane: Lane::Hc })
            &&& after[n + 6] == (Op::MhcCarry { site })
            &&& after[n + 7] == (Op::Record { signal: mixes, lane: Lane::Hc })
        }),
{
    assert(layer_plan::mix_ops(ops, k, site).take(ops.len() as int) =~= ops);
}

} // verus!
