//! Rebuilding an engine from stored instrument definitions and resting
//! orders.
use crate::decimal::Dec;
use crate::engine::{ClobEngine, EngineView};
use crate::error::{result_view, ClobError, ErrorKind};
use crate::book::{book_orders, empty_book, BookView};
use crate::engine::{engine_orders, orders_of_first, sorted_by_ts};
use crate::priority::{book_consistent, same_orders};
use crate::naming::{books_named, lemma_books_named_orders};
use crate::reload::{insert_all, level_orders, reload_restores_book, time_ordered};
use crate::types::{Order, Side};
use vstd::prelude::*;

verus! {

/// An instrument as it is stored.
#[derive(Clone, Debug, PartialEq)]
pub struct InstrumentDef {
    pub id: u64,
    pub symbol: String,
    pub tick_size: Dec,
    pub lot_size: Dec,
    pub max_ticks: usize,
}

/// Creating the instruments in turn, stopping at the first refusal: the
/// engine after, and the refusal if there was one.
pub open spec fn create_defs(v: EngineView, defs: Seq<InstrumentDef>) -> (
    EngineView,
    Option<(ErrorKind, Seq<char>)>,
)
    decreases defs.len(),
{
    if defs.len() == 0 {
        (v, None)
    } else {
        let d = defs[0];
        let (v1, r) = v.create_with_id(d.id, d.symbol@, d.tick_size, d.lot_size, d.max_ticks);
        match r {
            Err(e) => (v1, Some(e)),
            Ok(_) => create_defs(v1, defs.drop_first()),
        }
    }
}

/// Creating the instruments in turn does not overflow, and their sizes are
/// well-formed numbers.
pub open spec fn create_defs_ok(v: EngineView, defs: Seq<InstrumentDef>) -> bool
    decreases defs.len(),
{
    defs.len() > 0 ==> {
        let d = defs[0];
        let (v1, r) = v.create_with_id(d.id, d.symbol@, d.tick_size, d.lot_size, d.max_ticks);
        &&& d.tick_size.wf()
        &&& d.lot_size.wf()
        &&& v.create_with_id_refusal(d.id, d.symbol@, d.tick_size, d.lot_size, d.max_ticks) is None
            ==> d.id < u64::MAX
        &&& r is Ok ==> create_defs_ok(v1, defs.drop_first())
    }
}

/// Loading the orders in turn, stopping at the first refusal.
pub open spec fn load_orders(v: EngineView, orders: Seq<Order>) -> (
    EngineView,
    Option<(ErrorKind, Seq<char>)>,
)
    decreases orders.len(),
{
    if orders.len() == 0 {
        (v, None)
    } else {
        let (v1, r) = v.load(orders[0]);
        match r {
            Err(e) => (v1, Some(e)),
            Ok(_) => load_orders(v1, orders.drop_first()),
        }
    }
}

/// Loading the orders in turn neither panics nor overflows.
pub open spec fn load_orders_ok(v: EngineView, orders: Seq<Order>) -> bool
    decreases orders.len(),
{
    orders.len() > 0 ==> {
        let (v1, r) = v.load(orders[0]);
        &&& orders[0].wf()
        &&& v.load_ok(orders[0])
        &&& r is Ok ==> load_orders_ok(v1, orders.drop_first())
    }
}

/// Rebuilding: the instruments are created, then the orders loaded, each in
/// turn; the first refusal ends it.
pub open spec fn rebuild(v: EngineView, defs: Seq<InstrumentDef>, orders: Seq<Order>) -> (
    EngineView,
    Result<(), (ErrorKind, Seq<char>)>,
) {
    let (v1, e1) = create_defs(v, defs);
    match e1 {
        Some(e) => (v1, Err(e)),
        None => {
            let (v2, e2) = load_orders(v1, orders);
            match e2 {
                Some(e) => (v2, Err(e)),
                None => (v2, Ok(())),
            }
        },
    }
}

/// Rebuilding neither panics nor overflows.
pub open spec fn rebuild_ok(v: EngineView, defs: Seq<InstrumentDef>, orders: Seq<Order>) -> bool {
    &&& create_defs_ok(v, defs)
    &&& create_defs(v, defs).1 is None ==> load_orders_ok(create_defs(v, defs).0, orders)
}

/// Rebuilds an engine: creates the instruments with their stored ids, then
/// loads the resting orders, which must come sorted by time so that time
/// priority is kept.
pub fn rebuild_book(
    engine: &mut ClobEngine,
    instruments: &[InstrumentDef],
    orders: &[Order],
) -> (r: Result<(), ClobError>)
    requires
        old(engine)@.wf(),
        rebuild_ok(old(engine)@, instruments@, orders@),
    ensures
        final(engine)@.wf(),
        (final(engine)@, result_view(r)) == rebuild(old(engine)@, instruments@, orders@),
{
    let ghost v0 = engine@;
    let n = instruments.len();
    let mut i: usize = 0;
    assert(instruments@.skip(0) =~= instruments@);
    while i < n
        invariant
            n == instruments@.len(),
            i <= n,
            engine@.wf(),
            v0 == old(engine)@,
            create_defs(engine@, instruments@.skip(i as int)) == create_defs(v0, instruments@),
            create_defs_ok(engine@, instruments@.skip(i as int)),
        decreases n - i,
    {
        let ghost rest = instruments@.skip(i as int);
        assert(rest[0] == instruments@[i as int]);
        assert(rest.drop_first() =~= instruments@.skip(i + 1));
        let d = &instruments[i];
        let ghost before = engine@;
        match engine.create_instrument_with_id(d.id, d.symbol.as_str(), d.tick_size, d.lot_size, d.max_ticks) {
            Ok(_) => {},
            Err(e) => {
                assert(create_defs(before, rest) == (engine@, Some(e@)));
                assert(create_defs(v0, instruments@) == (engine@, Some(e@)));
                assert(rebuild(v0, instruments@, orders@) == (engine@, Err::<(), (ErrorKind, Seq<char>)>(e@)));
                return Err(e);
            },
        }
        i += 1;
    }
    assert(instruments@.skip(n as int) =~= Seq::<InstrumentDef>::empty());
    let ghost v1 = engine@;
    assert(create_defs(v0, instruments@) == (v1, None::<(ErrorKind, Seq<char>)>));
    assert(orders@.skip(0) =~= orders@);
    let m = orders.len();
    let mut k: usize = 0;
    while k < m
        invariant
            m == orders@.len(),
            k <= m,
            engine@.wf(),
            v0 == old(engine)@,
            load_orders(engine@, orders@.skip(k as int)) == load_orders(v1, orders@),
            load_orders_ok(engine@, orders@.skip(k as int)),
            create_defs(v0, instruments@) == (v1, None::<(ErrorKind, Seq<char>)>),
        decreases m - k,
    {
        let ghost rest = orders@.skip(k as int);
        assert(rest[0] == orders@[k as int]);
        assert(rest.drop_first() =~= orders@.skip(k + 1));
        let ghost before = engine@;
        match engine.load_order(orders[k].duplicate()) {
            Ok(()) => {},
            Err(e) => {
                assert(load_orders(before, rest) == (engine@, Some(e@)));
                assert(load_orders(v1, orders@) == (engine@, Some(e@)));
                assert(rebuild(v0, instruments@, orders@) == (engine@, Err::<(), (ErrorKind, Seq<char>)>(e@)));
                return Err(e);
            },
        }
        k += 1;
    }
    assert(orders@.skip(m as int) =~= Seq::<Order>::empty());
    assert(load_orders(v1, orders@) == (engine@, None::<(ErrorKind, Seq<char>)>));
    Ok(())
}

/// Whether rebuilding can run without a panic or an overflow, decided on a
/// copy of the engine.
pub fn rebuild_check(engine: &ClobEngine, instruments: &[InstrumentDef], orders: &[Order]) -> (r:
    bool)
    requires
        engine@.wf(),
    ensures
        r == rebuild_ok(engine@, instruments@, orders@),
{
    let ghost v0 = engine@;
    let mut sim = engine.duplicate();
    let n = instruments.len();
    let mut i: usize = 0;
    assert(instruments@.skip(0) =~= instruments@);
    while i < n
        invariant
            n == instruments@.len(),
            i <= n,
            sim@.wf(),
            v0 == engine@,
            create_defs(sim@, instruments@.skip(i as int)) == create_defs(v0, instruments@),
            create_defs_ok(sim@, instruments@.skip(i as int)) == create_defs_ok(v0, instruments@),
            rebuild_ok(v0, instruments@, orders@) == (create_defs_ok(v0, instruments@) && (create_defs(
                v0,
                instruments@,
            ).1 is None ==> load_orders_ok(create_defs(v0, instruments@).0, orders@))),
        decreases n - i,
    {
        let ghost rest = instruments@.skip(i as int);
        assert(rest[0] == instruments@[i as int]);
        assert(rest.drop_first() =~= instruments@.skip(i + 1));
        let d = &instruments[i];
        if !d.tick_size.check_wf() || !d.lot_size.check_wf() {
            return false;
        }
        if d.id == u64::MAX && !sim.create_with_id_refused(
            d.id,
            d.symbol.as_str(),
            d.tick_size,
            d.lot_size,
            d.max_ticks,
        ) {
            return false;
        }
        match sim.create_instrument_with_id(
            d.id,
            d.symbol.as_str(),
            d.tick_size,
            d.lot_size,
            d.max_ticks,
        ) {
            Ok(_) => {},
            Err(_) => {
                return true;
            },
        }
        i += 1;
    }
    assert(instruments@.skip(n as int) =~= Seq::<InstrumentDef>::empty());
    let ghost v1 = sim@;
    assert(create_defs(v0, instruments@) == (v1, None::<(ErrorKind, Seq<char>)>));
    let m = orders.len();
    let mut k: usize = 0;
    assert(orders@.skip(0) =~= orders@);
    while k < m
        invariant
            m == orders@.len(),
            k <= m,
            sim@.wf(),
            load_orders(sim@, orders@.skip(k as int)) == load_orders(v1, orders@),
            load_orders_ok(sim@, orders@.skip(k as int)) == load_orders_ok(v1, orders@),
            rebuild_ok(v0, instruments@, orders@) == load_orders_ok(v1, orders@),
            v0 == engine@,
        decreases m - k,
    {
        let ghost rest = orders@.skip(k as int);
        assert(rest[0] == orders@[k as int]);
        assert(rest.drop_first() =~= orders@.skip(k + 1));
        let o = &orders[k];
        if !o.check_wf() || !sim.load_check(o) {
            assert(!load_orders_ok(sim@, rest));
            return false;
        }
        let ghost before = sim@;
        match sim.load_order(o.duplicate()) {
            Ok(()) => {},
            Err(_) => {
                assert(load_orders_ok(before, rest));
                return true;
            },
        }
        k += 1;
    }
    assert(orders@.skip(m as int) =~= Seq::<Order>::empty());
    true
}

/// Rebuilds as `rebuild_book` does when that can run without a panic or an
/// overflow; otherwise the engine is unchanged and nothing is given.
pub fn try_rebuild_book(
    engine: &mut ClobEngine,
    instruments: &[InstrumentDef],
    orders: &[Order],
) -> (r: Option<Result<(), ClobError>>)
    requires
        old(engine)@.wf(),
    ensures
        final(engine)@.wf(),
        r is None ==> !rebuild_ok(old(engine)@, instruments@, orders@) && final(engine)@ == old(engine)@,
        r matches Some(res) ==> rebuild_ok(old(engine)@, instruments@, orders@) && (
        final(engine)@, result_view(res)) == rebuild(old(engine)@, instruments@, orders@),
{
    if rebuild_check(engine, instruments, orders) {
        Some(rebuild_book(engine, instruments, orders))
    } else {
        None
    }
}

/// Loading orders in turn keeps every instrument (with its symbol) and every
/// tracked order; when nothing is refused, every loaded order is tracked.
proof fn lemma_load_orders_keeps(v: EngineView, orders: Seq<Order>)
    ensures
        ({
            let v2 = load_orders(v, orders).0;
            &&& forall|k: u128| #[trigger]
                v.order_instrument.contains_key(k) ==> v2.order_instrument.contains_key(k)
            &&& forall|id: u64| #[trigger]
                v.instruments.contains_key(id) ==> v2.instruments.contains_key(id)
                    && v2.instruments[id].symbol == v.instruments[id].symbol
            &&& load_orders(v, orders).1 is None ==> forall|i: int|
                0 <= i < orders.len() ==> v2.order_instrument.contains_key(#[trigger] orders[i].id)
        }),
    decreases orders.len(),
{
    if orders.len() > 0 {
        let (v1, r) = v.load(orders[0]);
        lemma_load_orders_keeps(v1, orders.drop_first());
        let v2 = load_orders(v, orders).0;
        assert forall|k: u128| #[trigger] v.order_instrument.contains_key(k) implies v2.order_instrument.contains_key(k) by {
            assert(v1.order_instrument.contains_key(k));
        }
        assert forall|id: u64| #[trigger] v.instruments.contains_key(id) implies v2.instruments.contains_key(id)
            && v2.instruments[id].symbol == v.instruments[id].symbol by {
            assert(v1.instruments.contains_key(id));
            assert(v1.instruments[id].symbol == v.instruments[id].symbol);
        }
        if r is Ok {
            let v2 = load_orders(v, orders).0;
            assert forall|i: int|
                0 <= i < orders.len() && load_orders(v, orders).1 is None implies v2.order_instrument.contains_key(
                #[trigger] orders[i].id,
            ) by {
                if i == 0 {
                    assert(v1.order_instrument.contains_key(orders[0].id));
                } else {
                    assert(orders.drop_first()[i - 1] == orders[i]);
                }
            }
        }
    }
}

/// Creating instruments in turn keeps every instrument (with its symbol) and
/// the tracked orders; when nothing is refused, every given instrument
/// exists under its id with its symbol.
proof fn lemma_create_defs_keeps(v: EngineView, defs: Seq<InstrumentDef>)
    ensures
        ({
            let v2 = create_defs(v, defs).0;
            &&& v2.order_instrument == v.order_instrument
            &&& forall|id: u64| #[trigger]
                v.instruments.contains_key(id) ==> v2.instruments.contains_key(id)
                    && v2.instruments[id].symbol == v.instruments[id].symbol
            &&& create_defs(v, defs).1 is None ==> forall|j: int|
                0 <= j < defs.len() ==> v2.instruments.contains_key(#[trigger] defs[j].id)
                    && v2.instruments[defs[j].id].symbol == defs[j].symbol@
        }),
    decreases defs.len(),
{
    if defs.len() > 0 {
        let d = defs[0];
        let (v1, r) = v.create_with_id(d.id, d.symbol@, d.tick_size, d.lot_size, d.max_ticks);
        lemma_create_defs_keeps(v1, defs.drop_first());
        let v2 = create_defs(v, defs).0;
        assert forall|id: u64| #[trigger] v.instruments.contains_key(id) implies v2.instruments.contains_key(id)
            && v2.instruments[id].symbol == v.instruments[id].symbol by {
            assert(v1.instruments.contains_key(id));
            assert(v1.instruments[id].symbol == v.instruments[id].symbol);
        }
        if r is Ok {
            let v2 = create_defs(v, defs).0;
            assert forall|j: int|
                0 <= j < defs.len() && create_defs(v, defs).1 is None implies v2.instruments.contains_key(
                #[trigger] defs[j].id,
            ) && v2.instruments[defs[j].id].symbol == defs[j].symbol@ by {
                if j == 0 {
                    assert(v1.instruments.contains_key(d.id));
                } else {
                    assert(defs.drop_first()[j - 1] == defs[j]);
                }
            }
        }
    }
}

/// A rebuild that succeeds creates every given instrument under its id and
/// symbol and tracks every order it loaded.
pub proof fn rebuild_restores_all(v: EngineView, defs: Seq<InstrumentDef>, orders: Seq<Order>)
    ensures
        ({
            let (v2, r) = rebuild(v, defs, orders);
            r is Ok ==> {
                &&& forall|j: int|
                    0 <= j < defs.len() ==> v2.instruments.contains_key(#[trigger] defs[j].id)
                        && v2.instruments[defs[j].id].symbol == defs[j].symbol@
                &&& forall|i: int|
                    0 <= i < orders.len() ==> v2.order_instrument.contains_key(#[trigger] orders[i].id)
            }
        }),
{
    lemma_create_defs_keeps(v, defs);
    let v1 = create_defs(v, defs).0;
    lemma_load_orders_keeps(v1, orders);
    let (v2, r) = rebuild(v, defs, orders);
    if r is Ok {
        assert forall|j: int| 0 <= j < defs.len() implies v2.instruments.contains_key(
            #[trigger] defs[j].id,
        ) && v2.instruments[defs[j].id].symbol == defs[j].symbol@ by {
            assert(v1.instruments.contains_key(defs[j].id));
        }
    }
}


/// The orders of `s` that name instrument `k`, in their order.
pub open spec fn orders_of(s: Seq<Order>, k: u64) -> Seq<Order>
    decreases s.len(),
{
    if s.len() == 0 {
        Seq::empty()
    } else if s[0].instrument_id == k {
        seq![s[0]] + orders_of(s.drop_first(), k)
    } else {
        orders_of(s.drop_first(), k)
    }
}

/// Creating instruments in turn keeps every instrument already there as it
/// was, and a successful run leaves each defined instrument new, with an
/// empty book of its size.
proof fn lemma_create_defs_books(v: EngineView, defs: Seq<InstrumentDef>)
    ensures
        ({
            let v2 = create_defs(v, defs).0;
            &&& forall|id: u64| #[trigger]
                v.instruments.contains_key(id) ==> v2.instruments.contains_key(id)
                    && v2.instruments[id] == v.instruments[id]
            &&& create_defs(v, defs).1 is None ==> forall|j: int|
                0 <= j < defs.len() ==> v2.instruments.contains_key(#[trigger] defs[j].id)
                    && v2.instruments[defs[j].id].book == empty_book(defs[j].max_ticks)
        }),
    decreases defs.len(),
{
    if defs.len() > 0 {
        let d = defs[0];
        let (v1, r) = v.create_with_id(d.id, d.symbol@, d.tick_size, d.lot_size, d.max_ticks);
        lemma_create_defs_books(v1, defs.drop_first());
        let v2 = create_defs(v, defs).0;
        assert forall|id: u64| #[trigger] v.instruments.contains_key(id) implies v2.instruments.contains_key(id)
            && v2.instruments[id] == v.instruments[id] by {
            assert(v1.instruments.contains_key(id));
            assert(v1.instruments[id] == v.instruments[id]);
        }
        if r is Ok {
            if create_defs(v, defs).1 is None {
                assert forall|j: int| 0 <= j < defs.len() implies v2.instruments.contains_key(
                    #[trigger] defs[j].id,
                ) && v2.instruments[defs[j].id].book == empty_book(defs[j].max_ticks) by {
                    if j > 0 {
                        assert(defs.drop_first()[j - 1] == defs[j]);
                    } else {
                        assert(v1.instruments.contains_key(d.id));
                        assert(v1.instruments[d.id].book == empty_book(d.max_ticks));
                    }
                }
            }
        }
    }
}

/// Loading orders in turn, when no order is refused, inserts into each
/// instrument's book the orders naming it, in their order.
proof fn lemma_load_orders_books(v: EngineView, orders: Seq<Order>)
    ensures
        load_orders(v, orders).1 is None ==> forall|k: u64| #[trigger]
            v.instruments.contains_key(k) ==> load_orders(v, orders).0.instruments.contains_key(k)
                && load_orders(v, orders).0.instruments[k].book == insert_all(
                v.instruments[k].book,
                orders_of(orders, k),
            ),
    decreases orders.len(),
{
    if orders.len() > 0 {
        let o = orders[0];
        let r = orders.drop_first();
        let (v1, res) = v.load(o);
        lemma_load_orders_books(v1, r);
        if load_orders(v, orders).1 is None {
            assert(res is Ok);
            let v2 = load_orders(v, orders).0;
            assert forall|k: u64| #[trigger] v.instruments.contains_key(k) implies v2.instruments.contains_key(k)
                && v2.instruments[k].book == insert_all(v.instruments[k].book, orders_of(orders, k)) by {
                assert(v1.instruments.contains_key(k));
                if o.instrument_id == k {
                    let x = orders_of(r, k);
                    assert((seq![o] + x).drop_first() =~= x);
                    assert((seq![o] + x)[0] == o);
                    assert(v1.instruments[k].book == v.instruments[k].book.insert(o));
                } else {
                    assert(v1.instruments[k] == v.instruments[k]);
                }
            }
        }
    }
}

/// Picking the orders of one instrument from a sequence in time order keeps
/// time order, and picks orders of the sequence.
proof fn lemma_orders_of_sorted(s: Seq<Order>, k: u64)
    requires
        sorted_by_ts(s),
    ensures
        sorted_by_ts(orders_of(s, k)),
        forall|i: int| 0 <= i < orders_of(s, k).len() ==> s.contains(#[trigger] orders_of(s, k)[i]),
    decreases s.len(),
{
    if s.len() > 0 {
        let r = s.drop_first();
        assert forall|i: int, j: int| 0 <= i <= j < r.len() implies #[trigger] r[i].ts
            <= #[trigger] r[j].ts by {
            assert(r[i] == s[i + 1] && r[j] == s[j + 1]);
        }
        lemma_orders_of_sorted(r, k);
        let f = orders_of(s, k);
        let fr = orders_of(r, k);
        assert forall|i: int| 0 <= i < f.len() implies s.contains(#[trigger] f[i]) by {
            if s[0].instrument_id == k && i == 0 {
                assert(s[0] == f[0]);
            } else {
                let ii = if s[0].instrument_id == k {
                    i - 1
                } else {
                    i
                };
                assert(f[i] == fr[ii]);
                let m = choose|m: int| 0 <= m < r.len() && r[m] == fr[ii];
                assert(s[m + 1] == r[m]);
            }
        }
        if s[0].instrument_id == k {
            assert forall|i: int, j: int| 0 <= i <= j < f.len() implies #[trigger] f[i].ts
                <= #[trigger] f[j].ts by {
                if i == 0 {
                    if j > 0 {
                        assert(f[j] == fr[j - 1]);
                        let m = choose|m: int| 0 <= m < r.len() && r[m] == fr[j - 1];
                        assert(s[m + 1] == r[m]);
                        assert(s[0].ts <= s[m + 1].ts);
                    }
                } else {
                    assert(f[i] == fr[i - 1] && f[j] == fr[j - 1]);
                }
            }
        }
    }
}

/// Rebuilding restores each instrument's book.  When a rebuild from
/// instrument definitions and orders in time order succeeds, take a defined
/// instrument `k` and a consistent book `a` of its size whose levels are in
/// strictly increasing time and whose resting orders are exactly the orders
/// naming `k`: the rebuilt book of `k` holds at every level the same orders
/// in the same FIFO order as `a`, with the same tick counters and best
/// ticks, hence the same best prices and the same depth at every size.
pub proof fn rebuild_restores_books(
    v: EngineView,
    defs: Seq<InstrumentDef>,
    orders: Seq<Order>,
    j: int,
    a: BookView,
)
    requires
        rebuild(v, defs, orders).1 is Ok,
        0 <= j < defs.len(),
        book_consistent(a),
        time_ordered(a),
        a.max_ticks == defs[j].max_ticks,
        sorted_by_ts(orders),
        orders_of(orders, defs[j].id).to_multiset() == book_orders(a).to_multiset(),
    ensures
        ({
            let r = rebuild(v, defs, orders).0.instruments[defs[j].id].book;
            &&& rebuild(v, defs, orders).0.instruments.contains_key(defs[j].id)
            &&& forall|side: Side, tick: usize| #[trigger] level_orders(r, side, tick)
                == level_orders(a, side, tick)
            &&& same_orders(r.bids, a.bids)
            &&& same_orders(r.asks, a.asks)
            &&& r.best_price(Side::Buy) == a.best_price(Side::Buy)
            &&& r.best_price(Side::Sell) == a.best_price(Side::Sell)
            &&& forall|side: Side, levels: nat| #[trigger] r.depth(side, levels) == a.depth(
                side,
                levels,
            )
        }),
{
    let k = defs[j].id;
    let v1 = create_defs(v, defs).0;
    lemma_create_defs_books(v, defs);
    assert(v1.instruments.contains_key(k));
    assert(v1.instruments[k].book == empty_book(defs[j].max_ticks));
    lemma_load_orders_books(v1, orders);
    let s = orders_of(orders, k);
    lemma_orders_of_sorted(orders, k);
    reload_restores_book(a, s);
    assert(empty_book(a.max_ticks as usize) == empty_book(defs[j].max_ticks));
}


/// Picking the orders of one instrument from a concatenation concatenates
/// the picks.
proof fn lemma_orders_of_add(a: Seq<Order>, b: Seq<Order>, k: u64)
    ensures
        orders_of(a + b, k) == orders_of(a, k) + orders_of(b, k),
    decreases a.len(),
{
    if a.len() == 0 {
        assert(a + b =~= b);
    } else {
        assert((a + b).drop_first() =~= a.drop_first() + b);
        lemma_orders_of_add(a.drop_first(), b, k);
        assert((a + b)[0] == a[0]);
        if a[0].instrument_id == k {
            assert(seq![a[0]] + (orders_of(a.drop_first(), k) + orders_of(b, k)) =~= (seq![a[0]]
                + orders_of(a.drop_first(), k)) + orders_of(b, k));
        }
    }
}

/// Picking from orders that all name the instrument, or all name another,
/// keeps all or none.
proof fn lemma_orders_of_all(x: Seq<Order>, k: u64, owner: u64)
    requires
        forall|i: int| 0 <= i < x.len() ==> (#[trigger] x[i]).instrument_id == owner,
    ensures
        orders_of(x, k) == (if owner == k {
            x
        } else {
            Seq::<Order>::empty()
        }),
    decreases x.len(),
{
    if x.len() > 0 {
        assert forall|i: int| 0 <= i < x.len() - 1 implies (#[trigger] x.drop_first()[i]).instrument_id
            == owner by {
            assert(x.drop_first()[i] == x[i + 1]);
        }
        lemma_orders_of_all(x.drop_first(), k, owner);
        if owner == k {
            assert(seq![x[0]] + x.drop_first() =~= x);
        }
    }
}

/// How often an order occurs among the picked ones.
proof fn lemma_orders_of_count(x: Seq<Order>, k: u64, a: Order)
    ensures
        orders_of(x, k).to_multiset().count(a) == (if a.instrument_id == k {
            x.to_multiset().count(a)
        } else {
            0
        }),
    decreases x.len(),
{
    broadcast use {vstd::seq_lib::group_to_multiset_ensures, vstd::multiset::group_multiset_axioms};

    let f = orders_of(x, k);
    if x.len() == 0 {
        assert(!f.contains(a));
        assert(!x.contains(a));
    } else {
        let r = x.drop_first();
        lemma_orders_of_count(r, k, a);
        assert(x.remove(0) =~= r);
        assert(x.contains(x[0]));
        if x[0].instrument_id == k {
            assert(f[0] == x[0]);
            assert(f.drop_first() =~= orders_of(r, k));
            assert(f.remove(0) =~= f.drop_first());
            assert(f.contains(f[0]));
        }
    }
}

/// Every resting order of every instrument names that instrument.
pub open spec fn orders_named(a: EngineView) -> bool {
    forall|k: u64, i: int|
        a.instruments.contains_key(k) && 0 <= i < book_orders(a.instruments[k].book).len()
            ==> (#[trigger] book_orders(a.instruments[k].book)[i]).instrument_id == k
}

/// Among the resting orders of the first `n` instruments, those naming an
/// instrument are the resting orders of that instrument, if it is among
/// them.
proof fn lemma_first_orders_of(a: EngineView, n: int, k: u64)
    requires
        a.wf(),
        orders_named(a),
        n <= a.symbols.len(),
    ensures
        orders_of(orders_of_first(a, n), k) == (if exists|i: int| 0 <= i < n && a.symbols[i].1 == k {
            book_orders(a.instruments[k].book)
        } else {
            Seq::<Order>::empty()
        }),
    decreases n,
{
    if n > 0 {
        lemma_first_orders_of(a, n - 1, k);
        let id = a.symbols[n - 1].1;
        let x = book_orders(a.instruments[id].book);
        assert(a.instruments.contains_key(id));
        lemma_orders_of_add(orders_of_first(a, n - 1), x, k);
        assert forall|i: int| 0 <= i < x.len() implies (#[trigger] x[i]).instrument_id == id by {}
        lemma_orders_of_all(x, k, id);
        if id == k {
            assert(!exists|i: int| 0 <= i < n - 1 && a.symbols[i].1 == k) by {
                if exists|i: int| 0 <= i < n - 1 && a.symbols[i].1 == k {
                    let i = choose|i: int| 0 <= i < n - 1 && a.symbols[i].1 == k;
                    assert(a.symbols[i].1 != a.symbols[n - 1].1);
                }
            }
            assert(Seq::<Order>::empty() + x =~= x);
        } else {
            assert((exists|i: int| 0 <= i < n && a.symbols[i].1 == k) == (exists|i: int|
                0 <= i < n - 1 && a.symbols[i].1 == k));
            assert(orders_of(orders_of_first(a, n - 1), k) + Seq::<Order>::empty() =~= orders_of(
                orders_of_first(a, n - 1),
                k,
            ));
        }
    }
}

/// Rebuilding an engine from its own instruments and resting orders gives
/// back every book.  Take an engine whose books are consistent with levels
/// in strictly increasing time and hold only orders naming their instrument
/// (as every engine operation keeps them, see `naming`); when a rebuild succeeds from definitions of its instruments
/// (each defined with its book's size) and from its resting orders in time
/// order (as `ClobEngine::resting_orders` gives them), every defined
/// instrument's rebuilt book holds at every level the same orders in the
/// same FIFO order, with the same tick counters and best ticks, hence the
/// same best prices and the same depth at every size.
pub proof fn rebuild_restores_engine(
    a: EngineView,
    v: EngineView,
    defs: Seq<InstrumentDef>,
    orders: Seq<Order>,
)
    requires
        a.wf(),
        books_named(a),
        forall|k: u64| #[trigger]
            a.instruments.contains_key(k) ==> book_consistent(a.instruments[k].book) && time_ordered(
                a.instruments[k].book,
            ),
        forall|j: int|
            0 <= j < defs.len() ==> a.instruments.contains_key(#[trigger] defs[j].id)
                && a.instruments[defs[j].id].book.max_ticks == defs[j].max_ticks,
        sorted_by_ts(orders),
        orders.to_multiset() == engine_orders(a).to_multiset(),
        rebuild(v, defs, orders).1 is Ok,
    ensures
        forall|j: int|
            0 <= j < defs.len() ==> {
                let r = rebuild(v, defs, orders).0.instruments[#[trigger] defs[j].id].book;
                let b = a.instruments[defs[j].id].book;
                &&& rebuild(v, defs, orders).0.instruments.contains_key(defs[j].id)
                &&& forall|side: Side, tick: usize| #[trigger] level_orders(r, side, tick)
                    == level_orders(b, side, tick)
                &&& same_orders(r.bids, b.bids)
                &&& same_orders(r.asks, b.asks)
                &&& r.best_price(Side::Buy) == b.best_price(Side::Buy)
                &&& r.best_price(Side::Sell) == b.best_price(Side::Sell)
                &&& forall|side: Side, levels: nat| #[trigger] r.depth(side, levels) == b.depth(
                    side,
                    levels,
                )
            },
{
    lemma_books_named_orders(a);
    assert forall|j: int| 0 <= j < defs.len() implies {
        let r = rebuild(v, defs, orders).0.instruments[#[trigger] defs[j].id].book;
        let b = a.instruments[defs[j].id].book;
        &&& rebuild(v, defs, orders).0.instruments.contains_key(defs[j].id)
        &&& forall|side: Side, tick: usize| #[trigger] level_orders(r, side, tick) == level_orders(
            b,
            side,
            tick,
        )
        &&& same_orders(r.bids, b.bids)
        &&& same_orders(r.asks, b.asks)
        &&& r.best_price(Side::Buy) == b.best_price(Side::Buy)
        &&& r.best_price(Side::Sell) == b.best_price(Side::Sell)
        &&& forall|side: Side, levels: nat| #[trigger] r.depth(side, levels) == b.depth(side, levels)
    } by {
        let k = defs[j].id;
        let b = a.instruments[k].book;
        assert(a.instruments.contains_key(k));
        lemma_first_orders_of(a, a.symbols.len() as int, k);
        let i0 = choose|i: int| 0 <= i < a.symbols.len() && #[trigger] a.symbols[i].1 == k;
        assert(a.symbols[i0].1 == k);
        assert(exists|i: int| 0 <= i < a.symbols.len() as int && a.symbols[i].1 == k);
        assert(orders_of(engine_orders(a), k) == book_orders(b));
        assert forall|x: Order| #[trigger] orders_of(orders, k).to_multiset().count(x)
            == book_orders(b).to_multiset().count(x) by {
            lemma_orders_of_count(orders, k, x);
            lemma_orders_of_count(engine_orders(a), k, x);
        }
        assert(orders_of(orders, k).to_multiset() =~= book_orders(b).to_multiset());
        rebuild_restores_books(v, defs, orders, j, b);
    }
}

} // verus!
