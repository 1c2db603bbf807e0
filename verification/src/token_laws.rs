//! What a token's steps do when they are carried out: what the residual has been
//! through, whose store each layer has, and what was given to whom.

use vstd::prelude::*;
use crate::token;
use crate::token::{LayerLinks, TokenError, TokenSetup, TokenStep};

verus! {

/// The layers below `n`, in order.
pub open spec fn upto(n: int) -> Seq<usize> {
    Seq::new(n as nat, |i: int| i as usize)
}

/// What has come of some steps.
#[verifier::ext_equal]
pub struct Carried {
    /// Whose store each layer has.
    pub stores: Seq<Option<usize>>,
    /// The layers that the residual has been through.
    pub residual: Seq<usize>,
    /// The layers that the other residual buffer's value has been through.
    pub other: Seq<usize>,
    /// Times that the two buffers were swapped.
    pub swaps: nat,
    pub published: Option<(u32, u32)>,
    /// Layers whose second part was issued ahead.
    pub issued: Seq<usize>,
    /// The layer that engram rows are staged for, and which.
    pub staged: Option<(usize, usize)>,
    pub counted: Seq<usize>,
    pub captured: Seq<usize>,
    pub dumped_entering: Seq<usize>,
    pub dumped_residual: Seq<usize>,
    pub substituted: Seq<usize>,
    /// The layers that the residual had been through when the head read it.
    pub logits: Option<Seq<usize>>,
    pub dumped_logits: nat,
    pub synced: bool,
}

/// The layer whose store a layer works on.
pub open spec fn store_of(links: Seq<LayerLinks>, l: int) -> usize {
    match links[l].kv_source {
        Some(from) => from,
        None => l as usize,
    }
}

/// In front of a token every layer has its own store, but for those that reuse one.
pub open spec fn at_rest(links: Seq<LayerLinks>) -> Carried {
    Carried {
        stores: Seq::new(
            links.len(),
            |l: int|
                if links[l].kv_source is Some {
                    None::<usize>
                } else {
                    Some(l as usize)
                },
        ),
        residual: Seq::empty(),
        other: Seq::empty(),
        swaps: 0,
        published: None,
        issued: Seq::empty(),
        staged: None,
        counted: Seq::empty(),
        captured: Seq::empty(),
        dumped_entering: Seq::empty(),
        dumped_residual: Seq::empty(),
        substituted: Seq::empty(),
        logits: None,
        dumped_logits: 0,
        synced: false,
    }
}

/// What comes of one more step.
pub open spec fn after_step(s: Carried, step: TokenStep) -> Carried {
    match step {
        TokenStep::Publish { pos, slot } => Carried { published: Some((pos, slot)), ..s },
        TokenStep::IssueAhead { layer, .. } => Carried { issued: s.issued.push(layer), ..s },
        TokenStep::DumpEntering { layer } => Carried { dumped_entering: s.dumped_entering.push(layer), ..s },
        TokenStep::Capture { layer } => Carried { captured: s.captured.push(layer), ..s },
        TokenStep::Lend { from, to } => Carried {
            stores: s.stores.update(from as int, None).update(to as int, s.stores[from as int]),
            ..s
        },
        TokenStep::StageEngram { layer, row } => Carried { staged: Some((layer, row)), ..s },
        TokenStep::RunLayer { layer, .. } => Carried { other: s.residual.push(layer), staged: None, ..s },
        TokenStep::Return { from, to } => Carried {
            stores: s.stores.update(to as int, None).update(from as int, s.stores[to as int]),
            ..s
        },
        TokenStep::CountPicks { layer } => Carried { counted: s.counted.push(layer), ..s },
        TokenStep::SwapResidual => Carried {
            residual: s.other,
            other: s.residual,
            swaps: s.swaps + 1,
            ..s
        },
        TokenStep::Substitute { layer } => Carried { substituted: s.substituted.push(layer), ..s },
        TokenStep::DumpResidual { layer } => Carried { dumped_residual: s.dumped_residual.push(layer), ..s },
        TokenStep::Head => Carried { logits: Some(s.residual), ..s },
        TokenStep::DumpLogits => Carried { dumped_logits: s.dumped_logits + 1, ..s },
        TokenStep::Sync => Carried { synced: true, ..s },
    }
}

/// What comes of some steps.
pub open spec fn carried(links: Seq<LayerLinks>, steps: Seq<TokenStep>) -> Carried
    decreases steps.len(),
{
    if steps.len() == 0 {
        at_rest(links)
    } else {
        after_step(carried(links, steps.drop_last()), steps.last())
    }
}

/// A step comes at its time.
pub open spec fn timely(c: TokenSetup, links: Seq<LayerLinks>, seq: u32, s: Carried, step: TokenStep) -> bool {
    let n = links.len() as int;
    &&& !s.synced
    &&& match step {
        TokenStep::Publish { .. } => s.published is None && s.issued.len() == 0 && s.residual.len() == 0,
        // A part that is issued ahead is held back by this token's signal.
        TokenStep::IssueAhead { layer, seq: held } => {
            &&& c.ahead
            &&& s.published is Some
            &&& s.residual.len() == 0
            &&& layer == s.issued.len() < n
            &&& held == seq
        },
        TokenStep::DumpEntering { layer } => {
            &&& c.dump_layers@.contains(layer)
            &&& !s.dumped_entering.contains(layer)
            &&& s.residual == upto(layer as int)
        },
        TokenStep::Capture { layer } => s.residual == upto(layer as int) && layer < n,
        TokenStep::Lend { from, to } => {
            &&& to < n
            &&& links[to as int].kv_source == Some(from)
            &&& s.residual == upto(to as int)
            &&& s.stores[from as int] == Some(from)
            &&& s.stores[to as int] is None
        },
        TokenStep::StageEngram { layer, row } => {
            &&& layer < n
            &&& links[layer as int].engram
            &&& s.residual == upto(layer as int)
            &&& s.staged is None
            &&& (layer == 1 && row == 0) || (layer == 14 && row == 1)
        },
        // Everything that the layer needs is there: its input, its store, its
        // engram rows, the position, and its second part where that comes first.
        TokenStep::RunLayer { layer, path } => {
            &&& layer < n
            &&& path == c.path
            &&& s.residual == upto(layer as int)
            &&& s.published is Some
            &&& s.stores[layer as int] == Some(store_of(links, layer as int))
            &&& links[layer as int].engram <==> s.staged is Some
            &&& s.staged matches Some((l, _)) ==> l == layer
            &&& c.ahead ==> s.issued == upto(n)
        },
        // A store goes back behind the layer that it was lent to.
        TokenStep::Return { from, to } => {
            &&& to < n
            &&& links[to as int].kv_source == Some(from)
            &&& s.other == upto(to + 1)
            &&& s.stores[to as int] == Some(from)
            &&& s.stores[from as int] is None
        },
        TokenStep::CountPicks { layer } => s.other == upto(layer + 1) && s.residual == upto(layer as int),
        TokenStep::SwapResidual => s.other.len() == s.residual.len() + 1 || s.logits is Some,
        TokenStep::Substitute { layer } => s.residual == upto(layer + 1),
        TokenStep::DumpResidual { layer } => s.residual == upto(layer as int),
        TokenStep::Head => s.residual == upto(n) && s.logits is None,
        TokenStep::DumpLogits => s.logits is Some && s.dumped_logits == 0,
        TokenStep::Sync => s.logits is Some,
    }
}

/// Every step comes at its time.
pub open spec fn all_timely(c: TokenSetup, links: Seq<LayerLinks>, seq: u32, steps: Seq<TokenStep>) -> bool
    decreases steps.len(),
{
    steps.len() == 0 || (all_timely(c, links, seq, steps.drop_last()) && timely(
        c,
        links,
        seq,
        carried(links, steps.drop_last()),
        steps.last(),
    ))
}

/// A layer reuses the store of another layer of the model, which has its own.
pub open spec fn linked(links: Seq<LayerLinks>) -> bool {
    forall|l: int| #![trigger links[l]]
        0 <= l < links.len() ==> (links[l].kv_source matches Some(from) ==> from < links.len() && from != l
            && links[from as int].kv_source is None)
}

broadcast proof fn lemma_push_carried(links: Seq<LayerLinks>, steps: Seq<TokenStep>, step: TokenStep)
    ensures
        #[trigger] carried(links, steps.push(step)) == after_step(carried(links, steps), step),
{
    assert(steps.push(step).drop_last() =~= steps);
}

broadcast proof fn lemma_push_timely(
    c: TokenSetup,
    links: Seq<LayerLinks>,
    seq: u32,
    steps: Seq<TokenStep>,
    step: TokenStep,
)
    ensures
        #[trigger] all_timely(c, links, seq, steps.push(step)) == (all_timely(c, links, seq, steps) && timely(
            c,
            links,
            seq,
            carried(links, steps),
            step,
        )),
{
    assert(steps.push(step).drop_last() =~= steps);
}

/// What has come of the steps when layer `l` is next.
spec fn ready_for(c: TokenSetup, links: Seq<LayerLinks>, pos: u32, slot: u32, s: Carried, l: int) -> bool {
    let n = links.len() as int;
    &&& s.stores == at_rest(links).stores
    &&& s.residual == upto(l)
    &&& s.swaps == l
    &&& s.published == Some((pos, slot))
    &&& s.issued == if c.ahead {
        upto(n)
    } else {
        upto(0)
    }
    &&& s.staged is None
    &&& s.counted == if c.count_picks {
        upto(l)
    } else {
        upto(0)
    }
    &&& s.captured == if c.capture {
        upto(l)
    } else {
        upto(0)
    }
    &&& s.dumped_residual == if c.dump_residual {
        upto(l + 1)
    } else {
        upto(0)
    }
    &&& s.dumped_entering.no_duplicates()
    &&& forall|x: usize| #[trigger] s.dumped_entering.contains(x) <==> x < l && c.dump_layers@.contains(x)
    &&& s.substituted == if c.substitute_after matches Some(a) && a < l {
        seq![c.substitute_after->0]
    } else {
        Seq::<usize>::empty()
    }
    &&& s.logits is None
    &&& s.dumped_logits == 0
    &&& !s.synced
}

proof fn lemma_upto(n: int)
    requires
        0 <= n < usize::MAX,
    ensures
        upto(n).push(n as usize) == upto(n + 1),
        upto(0) == Seq::<usize>::empty(),
{
    assert(upto(n).push(n as usize) =~= upto(n + 1));
    assert(upto(0) =~= Seq::<usize>::empty());
}

proof fn lemma_ahead(c: TokenSetup, links: Seq<LayerLinks>, seq: u32, steps: Seq<TokenStep>, n: int)
    requires
        0 <= n <= links.len(),
        links.len() < usize::MAX,
        c.ahead,
        all_timely(c, links, seq, steps),
        carried(links, steps).published is Some,
        carried(links, steps).residual.len() == 0,
        carried(links, steps).issued.len() == 0,
        !carried(links, steps).synced,
    ensures
        all_timely(c, links, seq, token::ahead_steps(steps, n, seq)),
        carried(links, token::ahead_steps(steps, n, seq)) == (Carried {
            issued: upto(n),
            ..carried(links, steps)
        }),
    decreases n,
{
    broadcast use {lemma_push_carried, lemma_push_timely};

    if n > 0 {
        lemma_ahead(c, links, seq, steps, n - 1);
        lemma_upto(n - 1);
    } else {
        assert(carried(links, steps).issued =~= upto(0));
    }
}

proof fn lemma_opening(c: TokenSetup, links: Seq<LayerLinks>, pos: u32, slot: u32, seq: u32)
    requires
        links.len() < usize::MAX,
    ensures
        ({
            let steps = token::opening_steps(c, links.len() as int, pos, slot, seq);
            &&& all_timely(c, links, seq, steps)
            &&& ready_for(c, links, pos, slot, carried(links, steps), 0)
        }),
{
    broadcast use {lemma_push_carried, lemma_push_timely};

    lemma_upto(0);
    let none = Seq::<TokenStep>::empty();
    let first = TokenStep::DumpResidual { layer: 0 };
    let a = token::step_if(none, c.dump_residual, first);
    assert(carried(links, none) == at_rest(links));
    assert(all_timely(c, links, seq, a));
    let b = a.push(TokenStep::Publish { pos, slot });
    assert(all_timely(c, links, seq, b));
    if c.ahead {
        lemma_ahead(c, links, seq, b, links.len() as int);
    }
    assert(at_rest(links).dumped_residual.push(0) =~= upto(1));
}

proof fn lemma_enter(
    c: TokenSetup,
    links: Seq<LayerLinks>,
    pos: u32,
    slot: u32,
    seq: u32,
    steps: Seq<TokenStep>,
    l: int,
)
    requires
        0 <= l < links.len(),
        links.len() < usize::MAX,
        linked(links),
        all_timely(c, links, seq, steps),
        ready_for(c, links, pos, slot, carried(links, steps), l),
    ensures
        ({
            let s = carried(links, steps);
            let done = token::enter_steps(steps, c, links[l], l);
            let t = carried(links, done);
            &&& all_timely(c, links, seq, done)
            &&& t == (Carried {
                stores: t.stores,
                dumped_entering: t.dumped_entering,
                captured: if c.capture {
                    upto(l + 1)
                } else {
                    upto(0)
                },
                ..s
            })
            &&& t.stores == match links[l].kv_source {
                Some(from) => s.stores.update(from as int, None).update(l, Some(from)),
                None => s.stores,
            }
            &&& t.dumped_entering.no_duplicates()
            &&& forall|x: usize| #[trigger]
                t.dumped_entering.contains(x) <==> x < l + 1 && c.dump_layers@.contains(x)
        }),
{
    broadcast use {lemma_push_carried, lemma_push_timely};

    lemma_upto(l);
    let s = carried(links, steps);
    let layer = l as usize;
    let a = token::step_if(steps, c.dump_layers@.contains(layer), TokenStep::DumpEntering { layer });
    assert(all_timely(c, links, seq, a));
    let d = carried(links, a).dumped_entering;
    assert(d.no_duplicates() && forall|x: usize| #[trigger]
        d.contains(x) <==> x < l + 1 && c.dump_layers@.contains(x)) by {
        let old = s.dumped_entering;
        if c.dump_layers@.contains(layer) {
            assert(d == old.push(layer));
            assert forall|x: usize| #[trigger] d.contains(x) <==> x < l + 1 && c.dump_layers@.contains(x) by {
                if old.contains(x) {
                    let i = choose|i: int| 0 <= i < old.len() && old[i] == x;
                    assert(d[i] == x);
                }
                if x == layer {
                    assert(d[old.len() as int] == layer);
                }
                if d.contains(x) && x != layer {
                    let i = choose|i: int| 0 <= i < d.len() && d[i] == x;
                    assert(old[i] == x);
                }
            }
            assert forall|i: int, j: int| 0 <= i < d.len() && 0 <= j < d.len() && i != j implies d[i] != d[j] by {
                if i < old.len() && j < old.len() {
                    assert(old[i] != old[j]);
                } else if i < old.len() {
                    assert(old.contains(old[i]));
                } else if j < old.len() {
                    assert(old.contains(old[j]));
                }
            }
        }
    }
    let b = token::step_if(a, c.capture, TokenStep::Capture { layer });
    assert(all_timely(c, links, seq, b));
}

/// A layer and the return of its store, behind `steps`.
spec fn run_steps(steps: Seq<TokenStep>, c: TokenSetup, link: LayerLinks, l: int) -> Seq<TokenStep> {
    let layer = l as usize;
    let a = token::step_if(
        steps,
        link.engram,
        TokenStep::StageEngram { layer, row: token::engram_place(l)->0 },
    ).push(TokenStep::RunLayer { layer, path: c.path });
    match link.kv_source {
        Some(from) => a.push(TokenStep::Return { from, to: layer }),
        None => a,
    }
}

proof fn lemma_run(
    c: TokenSetup,
    links: Seq<LayerLinks>,
    seq: u32,
    steps: Seq<TokenStep>,
    home: Seq<Option<usize>>,
    l: int,
)
    requires
        0 <= l < links.len(),
        links.len() < usize::MAX,
        linked(links),
        all_timely(c, links, seq, steps),
        token::layer_stop(c, links[l], l) is None,
        home == at_rest(links).stores,
        ({
            let s = carried(links, steps);
            &&& !s.synced
            &&& s.residual == upto(l)
            &&& s.published is Some
            &&& s.staged is None
            &&& c.ahead ==> s.issued == upto(links.len() as int)
            &&& s.stores == match links[l].kv_source {
                Some(from) => home.update(from as int, None).update(l, Some(from)),
                None => home,
            }
        }),
    ensures
        all_timely(c, links, seq, run_steps(steps, c, links[l], l)),
        carried(links, run_steps(steps, c, links[l], l)) == (Carried {
            stores: home,
            other: upto(l + 1),
            ..carried(links, steps)
        }),
{
    broadcast use {lemma_push_carried, lemma_push_timely};

    lemma_upto(l);
    let layer = l as usize;
    let link = links[l];
    let s = carried(links, steps);
    let a = token::step_if(
        steps,
        link.engram,
        TokenStep::StageEngram { layer, row: token::engram_place(l)->0 },
    );
    assert(all_timely(c, links, seq, a));
    let ra = carried(links, a);
    assert(ra.stores[l] == Some(store_of(links, l)));
    let b = a.push(TokenStep::RunLayer { layer, path: c.path });
    assert(all_timely(c, links, seq, b));
    assert(carried(links, b) == (Carried { other: upto(l + 1), ..s }));
    if let Some(from) = link.kv_source {
        assert(links[from as int].kv_source is None);
        assert(home[from as int] == Some(from));
        assert(home[l] is None);
        assert(s.stores.update(l, None).update(from as int, s.stores[l]) =~= home);
    }
}

proof fn lemma_behind(c: TokenSetup, links: Seq<LayerLinks>, seq: u32, steps: Seq<TokenStep>, l: int)
    requires
        0 <= l < links.len(),
        links.len() < usize::MAX,
        all_timely(c, links, seq, steps),
        ({
            let s = carried(links, steps);
            &&& !s.synced
            &&& s.residual == upto(l)
            &&& s.other == upto(l + 1)
        }),
    ensures
        ({
            let layer = l as usize;
            let s = carried(links, steps);
            let w = token::step_if(steps, c.count_picks, TokenStep::CountPicks { layer }).push(
                TokenStep::SwapResidual,
            );
            let x = token::step_if(w, c.substitute_after == Some(layer), TokenStep::Substitute { layer });
            let done = token::step_if(
                x,
                c.dump_residual,
                TokenStep::DumpResidual { layer: (l + 1) as usize },
            );
            &&& all_timely(c, links, seq, done)
            &&& carried(links, done) == (Carried {
                residual: upto(l + 1),
                other: upto(l),
                swaps: s.swaps + 1,
                counted: if c.count_picks {
                    s.counted.push(layer)
                } else {
                    s.counted
                },
                substituted: if c.substitute_after == Some(layer) {
                    s.substituted.push(layer)
                } else {
                    s.substituted
                },
                dumped_residual: if c.dump_residual {
                    s.dumped_residual.push((l + 1) as usize)
                } else {
                    s.dumped_residual
                },
                ..s
            })
        }),
{
    broadcast use {lemma_push_carried, lemma_push_timely};

    let layer = l as usize;
    let d = token::step_if(steps, c.count_picks, TokenStep::CountPicks { layer });
    assert(all_timely(c, links, seq, d));
    let w = d.push(TokenStep::SwapResidual);
    assert(all_timely(c, links, seq, w));
    let x = token::step_if(w, c.substitute_after == Some(layer), TokenStep::Substitute { layer });
    assert(all_timely(c, links, seq, x));
}

proof fn lemma_leave(
    c: TokenSetup,
    links: Seq<LayerLinks>,
    pos: u32,
    slot: u32,
    seq: u32,
    steps: Seq<TokenStep>,
    entered: Seq<TokenStep>,
    l: int,
)
    requires
        0 <= l < links.len(),
        links.len() < usize::MAX,
        linked(links),
        all_timely(c, links, seq, steps),
        ready_for(c, links, pos, slot, carried(links, steps), l),
        entered == token::enter_steps(steps, c, links[l], l),
        token::layer_stop(c, links[l], l) is None,
    ensures
        ({
            let done = token::leave_steps(entered, c, links[l], l);
            &&& all_timely(c, links, seq, done)
            &&& ready_for(c, links, pos, slot, carried(links, done), l + 1)
        }),
{
    lemma_enter(c, links, pos, slot, seq, steps, l);
    lemma_upto(l);
    if l + 1 < usize::MAX {
        lemma_upto(l + 1);
    }
    lemma_run(c, links, seq, entered, at_rest(links).stores, l);
    let ran = run_steps(entered, c, links[l], l);
    lemma_behind(c, links, seq, ran, l);
    assert(Seq::<usize>::empty().push(l as usize) =~= seq![l as usize]);
}

proof fn lemma_layers(
    c: TokenSetup,
    links: Seq<LayerLinks>,
    pos: u32,
    slot: u32,
    seq: u32,
    steps: Seq<TokenStep>,
    n: int,
)
    requires
        0 <= n <= links.len(),
        links.len() < usize::MAX,
        linked(links),
        all_timely(c, links, seq, steps),
        ready_for(c, links, pos, slot, carried(links, steps), 0),
    ensures
        all_timely(c, links, seq, token::layers_steps(steps, c, links, n).0),
        token::layers_steps(steps, c, links, n).1 is None ==> ready_for(
            c,
            links,
            pos,
            slot,
            carried(links, token::layers_steps(steps, c, links, n).0),
            n,
        ),
    decreases n,
{
    if n > 0 {
        lemma_layers(c, links, pos, slot, seq, steps, n - 1);
        let (done, stop) = token::layers_steps(steps, c, links, n - 1);
        if stop is None {
            lemma_enter(c, links, pos, slot, seq, done, n - 1);
            if token::layer_stop(c, links[n - 1], n - 1) is None {
                let entered = token::enter_steps(done, c, links[n - 1], n - 1);
                lemma_leave(c, links, pos, slot, seq, done, entered, n - 1);
            }
        }
    }
}

/// Every step of a token comes at its time, also where the token ends early: a layer
/// runs on a residual that has been through the layers before it, with the store
/// that it works on, its engram rows and the token's position.
pub proof fn every_step_comes_at_its_time(
    c: TokenSetup,
    links: Seq<LayerLinks>,
    pos: u32,
    slot: u32,
    seq: u32,
)
    requires
        links.len() < usize::MAX,
        linked(links),
    ensures
        all_timely(c, links, seq, token::token_plan(c, links, pos, slot, seq).0),
{
    broadcast use {lemma_push_carried, lemma_push_timely};

    let n = links.len() as int;
    let opening = token::opening_steps(c, n, pos, slot, seq);
    lemma_opening(c, links, pos, slot, seq);
    lemma_layers(c, links, pos, slot, seq, opening, n);
    let (steps, stop) = token::layers_steps(opening, c, links, n);
    if stop is None {
        lemma_closing(c, links, pos, slot, seq, steps);
    }
}

proof fn lemma_closing(
    c: TokenSetup,
    links: Seq<LayerLinks>,
    pos: u32,
    slot: u32,
    seq: u32,
    steps: Seq<TokenStep>,
)
    requires
        links.len() < usize::MAX,
        all_timely(c, links, seq, steps),
        ready_for(c, links, pos, slot, carried(links, steps), links.len() as int),
    ensures
        ({
            let n = links.len() as int;
            let s = carried(links, steps);
            let done = token::closing_steps(steps, c, n);
            let t = carried(links, done);
            &&& all_timely(c, links, seq, done)
            &&& t == (Carried {
                residual: t.residual,
                other: t.other,
                swaps: t.swaps,
                logits: Some(upto(n)),
                dumped_logits: if c.dump_logits {
                    1
                } else {
                    0
                },
                synced: true,
                ..s
            })
            &&& t.swaps % 2 == 0
        }),
{
    broadcast use {lemma_push_carried, lemma_push_timely};

    let n = links.len() as int;
    let a = steps.push(TokenStep::Head);
    assert(all_timely(c, links, seq, a));
    let b = token::step_if(a, c.dump_logits, TokenStep::DumpLogits);
    assert(all_timely(c, links, seq, b));
    let d = token::step_if(b, n % 2 == 1, TokenStep::SwapResidual);
    assert(all_timely(c, links, seq, d));
    assert(token::closing_steps(steps, c, n) == d.push(TokenStep::Sync));
}

/// A token that runs to its end leaves every store with its own layer, the logits of
/// a residual that has been through every layer, and the residual's buffers as they
/// were. Everything asked for was done once: the position was published, the second
/// parts were issued, picks counted, residuals captured, replaced and dumped.
pub proof fn a_token_leaves_everything_in_place(
    c: TokenSetup,
    links: Seq<LayerLinks>,
    pos: u32,
    slot: u32,
    seq: u32,
)
    requires
        links.len() < usize::MAX,
        linked(links),
        token::token_plan(c, links, pos, slot, seq).1 is None,
    ensures
        ({
            let n = links.len() as int;
            let t = carried(links, token::token_plan(c, links, pos, slot, seq).0);
            &&& t.stores == at_rest(links).stores
            &&& t.logits == Some(upto(n))
            &&& t.swaps % 2 == 0
            &&& t.published == Some((pos, slot))
            &&& t.issued == if c.ahead {
                upto(n)
            } else {
                upto(0)
            }
            &&& t.counted == if c.count_picks {
                upto(n)
            } else {
                upto(0)
            }
            &&& t.captured == if c.capture {
                upto(n)
            } else {
                upto(0)
            }
            &&& t.dumped_residual == if c.dump_residual {
                upto(n + 1)
            } else {
                upto(0)
            }
            &&& t.dumped_entering.no_duplicates()
            &&& forall|x: usize| #[trigger]
                t.dumped_entering.contains(x) <==> x < n && c.dump_layers@.contains(x)
            &&& t.substituted == if c.substitute_after matches Some(a) && a < n {
                seq![c.substitute_after->0]
            } else {
                Seq::<usize>::empty()
            }
            &&& t.dumped_logits == if c.dump_logits {
                1nat
            } else {
                0
            }
            &&& t.synced
            &&& t.staged is None
        }),
{
    let n = links.len() as int;
    let opening = token::opening_steps(c, n, pos, slot, seq);
    lemma_opening(c, links, pos, slot, seq);
    lemma_layers(c, links, pos, slot, seq, opening, n);
    let (steps, stop) = token::layers_steps(opening, c, links, n);
    lemma_closing(c, links, pos, slot, seq, steps);
}

/// The rows of a layer's engram were given, and have the right length. Two layers have
/// engrams, the first of them the first rows and the second the second.
pub open spec fn has_its_rows(c: TokenSetup, l: int) -> bool {
    c.engram_rows matches Some(rows) && ((l == 1 && rows.len() >= 1 && rows@[0] == c.engram_in) || (
    l == 14 && rows.len() >= 2 && rows@[1] == c.engram_in))
}

proof fn lemma_rows(c: TokenSetup, l: int)
    ensures
        token::engram_stop(c, l) is None <==> has_its_rows(c, l),
        has_its_rows(c, l) ==> token::engram_place(l) == Some(
            if l == 1 {
                0usize
            } else {
                1
            },
        ),
{
}

proof fn lemma_layers_go_on(steps: Seq<TokenStep>, c: TokenSetup, links: Seq<LayerLinks>, n: int)
    requires
        0 <= n <= links.len(),
        forall|l: int| 0 <= l < n && (#[trigger] links[l]).engram ==> has_its_rows(c, l),
    ensures
        token::layers_steps(steps, c, links, n).1 is None,
    decreases n,
{
    if n > 0 {
        lemma_layers_go_on(steps, c, links, n - 1);
        lemma_rows(c, n - 1);
        assert(links[n - 1].engram ==> has_its_rows(c, n - 1));
    }
}

proof fn lemma_layers_take_none(
    steps: Seq<TokenStep>,
    c: TokenSetup,
    links: Seq<LayerLinks>,
    n: int,
    x: TokenStep,
)
    requires
        x is Head || x is Sync,
    ensures
        token::taken(token::layers_steps(steps, c, links, n).0, x) == token::taken(steps, x),
    decreases n,
{
    broadcast use token::lemma_push_taken;

    if n > 0 {
        lemma_layers_take_none(steps, c, links, n - 1, x);
    }
}

/// A token whose layers all have what they need runs to its end.
pub proof fn a_token_with_its_rows_ends(
    c: TokenSetup,
    links: Seq<LayerLinks>,
    pos: u32,
    slot: u32,
    seq: u32,
)
    requires
        forall|l: int| 0 <= l < links.len() && (#[trigger] links[l]).engram ==> has_its_rows(c, l),
    ensures
        token::token_plan(c, links, pos, slot, seq).1 is None,
{
    lemma_layers_go_on(
        token::opening_steps(c, links.len() as int, pos, slot, seq),
        c,
        links,
        links.len() as int,
    );
}

/// A token ends in front of the first layer that needs rows and has not got them: the
/// layers before it have run, and neither it nor any behind it; the head is not reached.
/// The error names that layer.
pub proof fn a_token_ends_at_the_first_layer_without_its_rows(
    c: TokenSetup,
    links: Seq<LayerLinks>,
    pos: u32,
    slot: u32,
    seq: u32,
    at: int,
)
    requires
        links.len() <= usize::MAX,
        0 <= at < links.len(),
        forall|l: int| 0 <= l < at && (#[trigger] links[l]).engram ==> has_its_rows(c, l),
        links[at].engram,
        !has_its_rows(c, at),
    ensures
        ({
            let (steps, stop) = token::token_plan(c, links, pos, slot, seq);
            &&& stop == Some(TokenError::NoEngramRows { layer: at as usize }) || stop == Some(
                TokenError::EngramRowLength { layer: at as usize },
            )
            &&& c.engram_rows is None ==> stop == Some(
                TokenError::NoEngramRows { layer: at as usize },
            )
            &&& token::ran(steps) == Seq::new(at as nat, |i: int| i as usize)
            &&& token::taken(steps, TokenStep::Head) == 0
            &&& token::taken(steps, TokenStep::Sync) == 0
        }),
{
    broadcast use {token::lemma_push_ran, token::lemma_push_taken};

    let n = links.len() as int;
    let start = token::opening_steps(c, n, pos, slot, seq);
    let first = token::step_if(
        Seq::empty(),
        c.dump_residual,
        TokenStep::DumpResidual { layer: 0 },
    ).push(TokenStep::Publish { pos, slot });
    assert(token::ran(Seq::<TokenStep>::empty()) =~= Seq::<usize>::empty());
    token::lemma_ahead_ran(first, n, seq);
    token::lemma_ahead_taken(first, n, seq, TokenStep::Head);
    token::lemma_ahead_taken(first, n, seq, TokenStep::Sync);
    lemma_layers_go_on(start, c, links, at);
    lemma_rows(c, at);
    token::lemma_layers_ran(start, c, links, at);
    token::lemma_stopped(start, c, links, at + 1, n);
    lemma_layers_take_none(start, c, links, n, TokenStep::Head);
    lemma_layers_take_none(start, c, links, n, TokenStep::Sync);
}

/// The sequence of tokens goes on by one, and starts over behind its last.
pub proof fn the_sequence_goes_on_by_one(seq: u32)
    ensures
        token::next_seq(seq) as int == (seq + 1) % 0x1_0000_0000int,
{
}

} // verus!
