//! Orders, trades, their enumerations, and the text forms of those
//! enumerations.
use crate::decimal::{dec_to_string, decimal_text, Dec};
use crate::text::{
    ascii_lower, concat, decimal_digits, is_ascii_word, is_lowercase_word, lowercase_text, str_eq, str_to_lowercase, u64_to_string, uuid_text,
    uuid_to_string,
};
use vstd::string::StringExecFns;
use vstd::prelude::*;

verus! {

broadcast use vstd::string::group_string_axioms;

/// The side of an order.
#[derive(Clone, Copy, Debug, PartialEq, Eq, Structural)]
pub enum Side {
    Buy,
    Sell,
}

/// How an order executes.
#[derive(Clone, Copy, Debug, PartialEq, Eq, Structural)]
pub enum OrderType {
    Limit,
    Market,
    IOC,
    FOK,
}

/// Where an order stands.
#[derive(Clone, Copy, Debug, PartialEq, Eq, Structural)]
pub enum OrderStatus {
    Open,
    PartiallyFilled,
    Filled,
    Cancelled,
    Rejected,
}

/// Self-trade prevention: what happens when an order would trade with a
/// resting order of the same participant.
#[derive(Clone, Copy, Debug, PartialEq, Eq, Structural)]
pub enum STPMode {
    CancelNewest,
    CancelOldest,
    Decrement,
    /// Self-trades are allowed (text "none").
    Disabled,
}

/// The text of a side.
pub open spec fn side_text(s: Side) -> Seq<char> {
    match s {
        Side::Buy => "buy"@,
        Side::Sell => "sell"@,
    }
}

/// The text of an order type.
pub open spec fn order_type_text(t: OrderType) -> Seq<char> {
    match t {
        OrderType::Limit => "limit"@,
        OrderType::Market => "market"@,
        OrderType::IOC => "ioc"@,
        OrderType::FOK => "fok"@,
    }
}

/// The text of an order status.
pub open spec fn order_status_text(s: OrderStatus) -> Seq<char> {
    match s {
        OrderStatus::Open => "open"@,
        OrderStatus::PartiallyFilled => "partially_filled"@,
        OrderStatus::Filled => "filled"@,
        OrderStatus::Cancelled => "cancelled"@,
        OrderStatus::Rejected => "rejected"@,
    }
}

/// The text of a self-trade prevention mode.
pub open spec fn stp_mode_text(m: STPMode) -> Seq<char> {
    match m {
        STPMode::CancelNewest => "cancel_newest"@,
        STPMode::CancelOldest => "cancel_oldest"@,
        STPMode::Decrement => "decrement"@,
        STPMode::Disabled => "none"@,
    }
}

impl Side {
    /// The opposite side.
    pub open spec fn opposite(self) -> Side {
        match self {
            Side::Buy => Side::Sell,
            Side::Sell => Side::Buy,
        }
    }

    /// The text of the side.
    pub fn as_str(self) -> (r: &'static str)
        ensures
            r@ == side_text(self),
    {
        match self {
            Side::Buy => "buy",
            Side::Sell => "sell",
        }
    }

    /// The text of the side, as a new string.
    pub fn to_string(&self) -> (r: String)
        ensures
            r@ == side_text(*self),
    {
        self.as_str().to_owned()
    }

    /// What reading text gives: the value whose name the lowercased text is,
    /// or an error that quotes the lowercased text; a name written in any
    /// mix of ASCII cases reads as its value.
    pub open spec fn parsed(s: Seq<char>, r: Result<Side, String>) -> bool {
        let l = lowercase_text(s);
        &&& (l == "buy"@ ==> r == Ok::<Side, String>(Side::Buy))
        &&& (l == "sell"@ ==> r == Ok::<Side, String>(Side::Sell))
        &&& (l != "buy"@ && l != "sell"@ ==> (r matches Err(m) && m@ == "invalid side: "@ + l))
        &&& forall|x: Side| s == side_text(x) ==> r == Ok::<Side, String>(x)
        &&& forall|x: Side| is_ascii_word(s) && ascii_lower(s) == side_text(x) ==> r == Ok::<Side, String>(x)
    }

    /// Reads a side from text, ignoring case.
    pub fn parse(s: &str) -> (r: Result<Side, String>)
        ensures
            Self::parsed(s@, r),
    {
        proof {
            reveal_strlit("buy");
            reveal_strlit("sell");
            assert(is_lowercase_word("buy"@));
            assert(is_lowercase_word("sell"@));
            assert("buy"@[0] != "sell"@[0]);
        }
        let lower = str_to_lowercase(s);
        if str_eq(lower.as_str(), "buy") {
            Ok(Side::Buy)
        } else if str_eq(lower.as_str(), "sell") {
            Ok(Side::Sell)
        } else {
            Err(concat("invalid side: ", lower.as_str()))
        }
    }
}

impl OrderType {
    /// The text of the order type.
    pub fn as_str(self) -> (r: &'static str)
        ensures
            r@ == order_type_text(self),
    {
        match self {
            OrderType::Limit => "limit",
            OrderType::Market => "market",
            OrderType::IOC => "ioc",
            OrderType::FOK => "fok",
        }
    }

    /// The text of the order type, as a new string.
    pub fn to_string(&self) -> (r: String)
        ensures
            r@ == order_type_text(*self),
    {
        self.as_str().to_owned()
    }

    /// What reading text gives: the value whose name the lowercased text is,
    /// or an error that quotes the lowercased text; a name written in any
    /// mix of ASCII cases reads as its value.
    pub open spec fn parsed(s: Seq<char>, r: Result<OrderType, String>) -> bool {
        let l = lowercase_text(s);
        &&& (l == "limit"@ ==> r == Ok::<OrderType, String>(OrderType::Limit))
        &&& (l == "market"@ ==> r == Ok::<OrderType, String>(OrderType::Market))
        &&& (l == "ioc"@ ==> r == Ok::<OrderType, String>(OrderType::IOC))
        &&& (l == "fok"@ ==> r == Ok::<OrderType, String>(OrderType::FOK))
        &&& (l != "limit"@ && l != "market"@ && l != "ioc"@ && l != "fok"@ ==> (r matches Err(m) && m@ == "invalid order type: "@ + l))
        &&& forall|x: OrderType| s == order_type_text(x) ==> r == Ok::<OrderType, String>(x)
        &&& forall|x: OrderType| is_ascii_word(s) && ascii_lower(s) == order_type_text(x) ==> r == Ok::<OrderType, String>(x)
    }

    /// Reads an order type from text, ignoring case.
    pub fn parse(s: &str) -> (r: Result<OrderType, String>)
        ensures
            Self::parsed(s@, r),
    {
        proof {
            reveal_strlit("limit");
            reveal_strlit("market");
            reveal_strlit("ioc");
            reveal_strlit("fok");
            assert("limit"@[0] == 'l');
            assert("market"@[0] == 'm');
            assert("ioc"@[0] == 'i');
            assert("fok"@[0] == 'f');
            assert(is_lowercase_word("limit"@));
            assert(is_lowercase_word("market"@));
            assert(is_lowercase_word("ioc"@));
            assert(is_lowercase_word("fok"@));
        }
        let lower = str_to_lowercase(s);
        if str_eq(lower.as_str(), "limit") {
            Ok(OrderType::Limit)
        } else if str_eq(lower.as_str(), "market") {
            Ok(OrderType::Market)
        } else if str_eq(lower.as_str(), "ioc") {
            Ok(OrderType::IOC)
        } else if str_eq(lower.as_str(), "fok") {
            Ok(OrderType::FOK)
        } else {
            Err(concat("invalid order type: ", lower.as_str()))
        }
    }
}

impl OrderStatus {
    /// The text of the status.
    pub fn as_str(self) -> (r: &'static str)
        ensures
            r@ == order_status_text(self),
    {
        match self {
            OrderStatus::Open => "open",
            OrderStatus::PartiallyFilled => "partially_filled",
            OrderStatus::Filled => "filled",
            OrderStatus::Cancelled => "cancelled",
            OrderStatus::Rejected => "rejected",
        }
    }

    /// The text of the status, as a new string.
    pub fn to_string(&self) -> (r: String)
        ensures
            r@ == order_status_text(*self),
    {
        self.as_str().to_owned()
    }

    /// What reading text gives: the value whose name the lowercased text is,
    /// or an error that quotes the lowercased text; a name written in any
    /// mix of ASCII cases reads as its value.
    pub open spec fn parsed(s: Seq<char>, r: Result<OrderStatus, String>) -> bool {
        let l = lowercase_text(s);
        &&& (l == "open"@ ==> r == Ok::<OrderStatus, String>(OrderStatus::Open))
        &&& (l == "partially_filled"@ ==> r == Ok::<OrderStatus, String>(OrderStatus::PartiallyFilled))
        &&& (l == "filled"@ ==> r == Ok::<OrderStatus, String>(OrderStatus::Filled))
        &&& (l == "cancelled"@ ==> r == Ok::<OrderStatus, String>(OrderStatus::Cancelled))
        &&& (l == "rejected"@ ==> r == Ok::<OrderStatus, String>(OrderStatus::Rejected))
        &&& (l != "open"@ && l != "partially_filled"@ && l != "filled"@ && l != "cancelled"@ && l != "rejected"@ ==> (r matches Err(m) && m@ == "invalid order status: "@ + l))
        &&& forall|x: OrderStatus| s == order_status_text(x) ==> r == Ok::<OrderStatus, String>(x)
        &&& forall|x: OrderStatus| is_ascii_word(s) && ascii_lower(s) == order_status_text(x) ==> r == Ok::<OrderStatus, String>(x)
    }

    /// Reads a status from text, ignoring case.
    pub fn parse(s: &str) -> (r: Result<OrderStatus, String>)
        ensures
            Self::parsed(s@, r),
    {
        proof {
            reveal_strlit("open");
            reveal_strlit("partially_filled");
            reveal_strlit("filled");
            reveal_strlit("cancelled");
            reveal_strlit("rejected");
            assert("open"@[0] == 'o');
            assert("partially_filled"@[0] == 'p');
            assert("filled"@[0] == 'f');
            assert("cancelled"@[0] == 'c');
            assert("rejected"@[0] == 'r');
            assert(is_lowercase_word("open"@));
            assert(is_lowercase_word("partially_filled"@));
            assert(is_lowercase_word("filled"@));
            assert(is_lowercase_word("cancelled"@));
            assert(is_lowercase_word("rejected"@));
        }
        let lower = str_to_lowercase(s);
        if str_eq(lower.as_str(), "open") {
            Ok(OrderStatus::Open)
        } else if str_eq(lower.as_str(), "partially_filled") {
            Ok(OrderStatus::PartiallyFilled)
        } else if str_eq(lower.as_str(), "filled") {
            Ok(OrderStatus::Filled)
        } else if str_eq(lower.as_str(), "cancelled") {
            Ok(OrderStatus::Cancelled)
        } else if str_eq(lower.as_str(), "rejected") {
            Ok(OrderStatus::Rejected)
        } else {
            Err(concat("invalid order status: ", lower.as_str()))
        }
    }
}

impl STPMode {
    /// The text of the mode.
    pub fn as_str(self) -> (r: &'static str)
        ensures
            r@ == stp_mode_text(self),
    {
        match self {
            STPMode::CancelNewest => "cancel_newest",
            STPMode::CancelOldest => "cancel_oldest",
            STPMode::Decrement => "decrement",
            STPMode::Disabled => "none",
        }
    }

    /// The text of the mode, as a new string.
    pub fn to_string(&self) -> (r: String)
        ensures
            r@ == stp_mode_text(*self),
    {
        self.as_str().to_owned()
    }

    /// What reading text gives: the value whose name the lowercased text is,
    /// or an error that quotes the lowercased text; a name written in any
    /// mix of ASCII cases reads as its value.
    pub open spec fn parsed(s: Seq<char>, r: Result<STPMode, String>) -> bool {
        let l = lowercase_text(s);
        &&& (l == "cancel_newest"@ ==> r == Ok::<STPMode, String>(STPMode::CancelNewest))
        &&& (l == "cancel_oldest"@ ==> r == Ok::<STPMode, String>(STPMode::CancelOldest))
        &&& (l == "decrement"@ ==> r == Ok::<STPMode, String>(STPMode::Decrement))
        &&& (l == "none"@ ==> r == Ok::<STPMode, String>(STPMode::Disabled))
        &&& (l != "cancel_newest"@ && l != "cancel_oldest"@ && l != "decrement"@ && l != "none"@ ==> (r matches Err(m) && m@ == "invalid STP mode: "@ + l))
        &&& forall|x: STPMode| s == stp_mode_text(x) ==> r == Ok::<STPMode, String>(x)
        &&& forall|x: STPMode| is_ascii_word(s) && ascii_lower(s) == stp_mode_text(x) ==> r == Ok::<STPMode, String>(x)
    }

    /// Reads a mode from text, ignoring case.
    pub fn parse(s: &str) -> (r: Result<STPMode, String>)
        ensures
            Self::parsed(s@, r),
    {
        proof {
            reveal_strlit("cancel_newest");
            reveal_strlit("cancel_oldest");
            reveal_strlit("decrement");
            reveal_strlit("none");
            assert("cancel_newest"@[7] == 'n');
            assert("cancel_oldest"@[7] == 'o');
            assert("decrement"@[0] == 'd');
            assert("none"@[0] == 'n');
            assert("cancel_newest"@[0] == 'c');
            assert(is_lowercase_word("cancel_newest"@));
            assert(is_lowercase_word("cancel_oldest"@));
            assert(is_lowercase_word("decrement"@));
            assert(is_lowercase_word("none"@));
        }
        let lower = str_to_lowercase(s);
        if str_eq(lower.as_str(), "cancel_newest") {
            Ok(STPMode::CancelNewest)
        } else if str_eq(lower.as_str(), "cancel_oldest") {
            Ok(STPMode::CancelOldest)
        } else if str_eq(lower.as_str(), "decrement") {
            Ok(STPMode::Decrement)
        } else if str_eq(lower.as_str(), "none") {
            Ok(STPMode::Disabled)
        } else {
            Err(concat("invalid STP mode: ", lower.as_str()))
        }
    }
}


impl From<Side> for &'static str {
    fn from(v: Side) -> (r: &'static str) {
        match v {
            Side::Buy => "buy",
            Side::Sell => "sell",
        }
    }
}

impl vstd::std_specs::convert::FromSpecImpl<Side> for &'static str {
    open spec fn obeys_from_spec() -> bool {
        true
    }

    open spec fn from_spec(v: Side) -> &'static str {
        match v {
            Side::Buy => "buy",
            Side::Sell => "sell",
        }
    }
}

impl TryFrom<&str> for Side {
    type Error = String;

    fn try_from(s: &str) -> (r: Result<Side, String>)
        ensures
            Side::parsed(s@, r),
    {
        Side::parse(s)
    }
}

/// `try_from` gives what `parse` gives, as its `ensures` states; the error is
/// a `String` known only by its text, so no spec value of the result is
/// offered here.
impl vstd::std_specs::convert::TryFromSpecImpl<&str> for Side {
    open spec fn obeys_try_from_spec() -> bool {
        false
    }

    open spec fn try_from_spec(s: &str) -> Result<Side, String> {
        arbitrary()
    }
}

impl core::str::FromStr for Side {
    type Err = String;

    fn from_str(s: &str) -> (r: Result<Side, String>)
        ensures
            Side::parsed(s@, r),
    {
        Side::parse(s)
    }
}

impl From<OrderType> for &'static str {
    fn from(v: OrderType) -> (r: &'static str) {
        match v {
            OrderType::Limit => "limit",
            OrderType::Market => "market",
            OrderType::IOC => "ioc",
            OrderType::FOK => "fok",
        }
    }
}

impl vstd::std_specs::convert::FromSpecImpl<OrderType> for &'static str {
    open spec fn obeys_from_spec() -> bool {
        true
    }

    open spec fn from_spec(v: OrderType) -> &'static str {
        match v {
            OrderType::Limit => "limit",
            OrderType::Market => "market",
            OrderType::IOC => "ioc",
            OrderType::FOK => "fok",
        }
    }
}

impl TryFrom<&str> for OrderType {
    type Error = String;

    fn try_from(s: &str) -> (r: Result<OrderType, String>)
        ensures
            OrderType::parsed(s@, r),
    {
        OrderType::parse(s)
    }
}

/// `try_from` gives what `parse` gives (see the impl for `Side`).
impl vstd::std_specs::convert::TryFromSpecImpl<&str> for OrderType {
    open spec fn obeys_try_from_spec() -> bool {
        false
    }

    open spec fn try_from_spec(s: &str) -> Result<OrderType, String> {
        arbitrary()
    }
}

impl core::str::FromStr for OrderType {
    type Err = String;

    fn from_str(s: &str) -> (r: Result<OrderType, String>)
        ensures
            OrderType::parsed(s@, r),
    {
        OrderType::parse(s)
    }
}

impl From<OrderStatus> for &'static str {
    fn from(v: OrderStatus) -> (r: &'static str) {
        match v {
            OrderStatus::Open => "open",
            OrderStatus::PartiallyFilled => "partially_filled",
            OrderStatus::Filled => "filled",
            OrderStatus::Cancelled => "cancelled",
            OrderStatus::Rejected => "rejected",
        }
    }
}

impl vstd::std_specs::convert::FromSpecImpl<OrderStatus> for &'static str {
    open spec fn obeys_from_spec() -> bool {
        true
    }

    open spec fn from_spec(v: OrderStatus) -> &'static str {
        match v {
            OrderStatus::Open => "open",
            OrderStatus::PartiallyFilled => "partially_filled",
            OrderStatus::Filled => "filled",
            OrderStatus::Cancelled => "cancelled",
            OrderStatus::Rejected => "rejected",
        }
    }
}

impl TryFrom<&str> for OrderStatus {
    type Error = String;

    fn try_from(s: &str) -> (r: Result<OrderStatus, String>)
        ensures
            OrderStatus::parsed(s@, r),
    {
        OrderStatus::parse(s)
    }
}

/// `try_from` gives what `parse` gives (see the impl for `Side`).
impl vstd::std_specs::convert::TryFromSpecImpl<&str> for OrderStatus {
    open spec fn obeys_try_from_spec() -> bool {
        false
    }

    open spec fn try_from_spec(s: &str) -> Result<OrderStatus, String> {
        arbitrary()
    }
}

impl core::str::FromStr for OrderStatus {
    type Err = String;

    fn from_str(s: &str) -> (r: Result<OrderStatus, String>)
        ensures
            OrderStatus::parsed(s@, r),
    {
        OrderStatus::parse(s)
    }
}

impl From<STPMode> for &'static str {
    fn from(v: STPMode) -> (r: &'static str) {
        match v {
            STPMode::CancelNewest => "cancel_newest",
            STPMode::CancelOldest => "cancel_oldest",
            STPMode::Decrement => "decrement",
            STPMode::Disabled => "none",
        }
    }
}

impl vstd::std_specs::convert::FromSpecImpl<STPMode> for &'static str {
    open spec fn obeys_from_spec() -> bool {
        true
    }

    open spec fn from_spec(v: STPMode) -> &'static str {
        match v {
            STPMode::CancelNewest => "cancel_newest",
            STPMode::CancelOldest => "cancel_oldest",
            STPMode::Decrement => "decrement",
            STPMode::Disabled => "none",
        }
    }
}

impl TryFrom<&str> for STPMode {
    type Error = String;

    fn try_from(s: &str) -> (r: Result<STPMode, String>)
        ensures
            STPMode::parsed(s@, r),
    {
        STPMode::parse(s)
    }
}

/// `try_from` gives what `parse` gives (see the impl for `Side`).
impl vstd::std_specs::convert::TryFromSpecImpl<&str> for STPMode {
    open spec fn obeys_try_from_spec() -> bool {
        false
    }

    open spec fn try_from_spec(s: &str) -> Result<STPMode, String> {
        arbitrary()
    }
}

impl core::str::FromStr for STPMode {
    type Err = String;

    fn from_str(s: &str) -> (r: Result<STPMode, String>)
        ensures
            STPMode::parsed(s@, r),
    {
        STPMode::parse(s)
    }
}

/// An order: identity, instrument, owner, side, type, limit price (none
/// for a market order), quantity as entered and as remaining, status, timestamp
/// and self-trade prevention mode.
#[derive(Clone, Debug)]
pub struct Order {
    pub id: u128,
    pub instrument_id: u64,
    pub participant_id: String,
    pub side: Side,
    pub order_type: OrderType,
    pub price: Option<Dec>,
    pub qty: Dec,
    pub remaining: Dec,
    pub status: OrderStatus,
    pub ts: u64,
    pub stp_mode: STPMode,
}

impl Order {
    /// The decimals of the order are well formed.
    pub open spec fn wf(&self) -> bool {
        &&& self.qty.wf()
        &&& self.remaining.wf()
        &&& (self.price matches Some(p) ==> p.wf())
    }

    /// A new open order whose remaining quantity is its quantity.
    pub fn new(
        id: u128,
        instrument_id: u64,
        participant_id: String,
        side: Side,
        order_type: OrderType,
        price: Option<Dec>,
        qty: Dec,
        ts: u64,
        stp_mode: STPMode,
    ) -> (r: Order)
        ensures
            r == (Order {
                id,
                instrument_id,
                participant_id,
                side,
                order_type,
                price,
                qty,
                remaining: qty,
                status: OrderStatus::Open,
                ts,
                stp_mode,
            }),
    {
        Order {
            id,
            instrument_id,
            participant_id,
            side,
            order_type,
            price,
            qty,
            remaining: qty,
            status: OrderStatus::Open,
            ts,
            stp_mode,
        }
    }

    /// The decimals of the order are well formed (checked at run time).
    pub fn check_wf(&self) -> (r: bool)
        ensures
            r == self.wf(),
    {
        self.qty.check_wf() && self.remaining.check_wf() && match self.price {
            Some(p) => p.check_wf(),
            None => true,
        }
    }

    /// A copy of the order.
    pub fn duplicate(&self) -> (r: Order)
        ensures
            r == *self,
    {
        Order {
            id: self.id,
            instrument_id: self.instrument_id,
            participant_id: self.participant_id.clone(),
            side: self.side,
            order_type: self.order_type,
            price: self.price,
            qty: self.qty,
            remaining: self.remaining,
            status: self.status,
            ts: self.ts,
            stp_mode: self.stp_mode,
        }
    }
}

/// A fill between a buy and a sell order.
#[derive(Clone, Debug)]
pub struct Trade {
    pub id: u128,
    pub instrument_id: u64,
    pub buy_order_id: u128,
    pub sell_order_id: u128,
    pub buy_participant_id: String,
    pub sell_participant_id: String,
    pub price: Dec,
    pub qty: Dec,
    pub ts: u64,
}

/// The namespace of trade ids (`e7d8a1b4-3f95-4a2c-8e1d-c6b5f0a9d3e2`).
pub const TRADE_ID_NAMESPACE: u128 = 0xe7d8a1b43f954a2c8e1dc6b5f0a9d3e2;

/// What `uuid::Uuid::new_v5` returns for a namespace and a name.
pub uninterp spec fn uuid_v5(namespace: u128, name: Seq<char>) -> u128;

/// `uuid::Uuid::new_v5(&Uuid::from_u128(namespace), name.as_bytes())`, the
/// name-based (SHA-1) UUID of `name` in `namespace`, as a 128-bit value.
#[verifier::external_body]
fn uuid_new_v5(namespace: u128, name: &str) -> (r: u128)
    ensures
        r == uuid_v5(namespace, name@),
{
    uuid::Uuid::new_v5(&uuid::Uuid::from_u128(namespace), name.as_bytes()).as_u128()
}

/// The name from which a trade id is made:
/// `instrument:buy_id:sell_id:price:qty:fill_seq`.
pub open spec fn trade_id_name(
    instrument_id: u64,
    buy_order_id: u128,
    sell_order_id: u128,
    price: Dec,
    qty: Dec,
    fill_seq: u64,
) -> Seq<char> {
    decimal_digits(instrument_id as nat) + ":"@ + uuid_text(buy_order_id) + ":"@ + uuid_text(
        sell_order_id,
    ) + ":"@ + decimal_text(price) + ":"@ + decimal_text(qty) + ":"@ + decimal_digits(
        fill_seq as nat,
    )
}

/// The deterministic id of a trade.
pub open spec fn trade_id(
    instrument_id: u64,
    buy_order_id: u128,
    sell_order_id: u128,
    price: Dec,
    qty: Dec,
    fill_seq: u64,
) -> u128 {
    uuid_v5(
        TRADE_ID_NAMESPACE,
        trade_id_name(instrument_id, buy_order_id, sell_order_id, price, qty, fill_seq),
    )
}

impl Trade {
    /// A deterministic, idempotent trade id computed from the trade's
    /// contents: the name-based UUID of its contents in a fixed namespace.
    pub fn compute_id(
        instrument_id: u64,
        buy_order_id: u128,
        sell_order_id: u128,
        price: Dec,
        qty: Dec,
        fill_seq: u64,
    ) -> (r: u128)
        requires
            price.wf(),
            qty.wf(),
        ensures
            r == trade_id(instrument_id, buy_order_id, sell_order_id, price, qty, fill_seq),
    {
        let mut name = u64_to_string(instrument_id);
        name.append(":");
        name.append(uuid_to_string(buy_order_id).as_str());
        name.append(":");
        name.append(uuid_to_string(sell_order_id).as_str());
        name.append(":");
        name.append(dec_to_string(price).as_str());
        name.append(":");
        name.append(dec_to_string(qty).as_str());
        name.append(":");
        name.append(u64_to_string(fill_seq).as_str());
        uuid_new_v5(TRADE_ID_NAMESPACE, name.as_str())
    }
}

/// The outcome of placing an order.
#[derive(Clone, Debug)]
pub struct PlaceOrderResult {
    pub order_id: u128,
    pub status: OrderStatus,
    pub filled_qty: Dec,
    pub avg_fill_price: Option<Dec>,
    pub trades: Vec<Trade>,
}

impl PlaceOrderResult {
    /// An order cancelled with nothing filled.
    pub fn cancelled(order_id: u128) -> (r: PlaceOrderResult)
        ensures
            r.order_id == order_id,
            r.status == OrderStatus::Cancelled,
            r.filled_qty == Dec::zero_value(),
            r.avg_fill_price.is_none(),
            r.trades@.len() == 0,
    {
        PlaceOrderResult {
            order_id,
            status: OrderStatus::Cancelled,
            filled_qty: Dec::zero(),
            avg_fill_price: None,
            trades: Vec::new(),
        }
    }

    /// An order rejected with nothing filled.
    pub fn rejected(order_id: u128) -> (r: PlaceOrderResult)
        ensures
            r.order_id == order_id,
            r.status == OrderStatus::Rejected,
            r.filled_qty == Dec::zero_value(),
            r.avg_fill_price.is_none(),
            r.trades@.len() == 0,
    {
        PlaceOrderResult {
            order_id,
            status: OrderStatus::Rejected,
            filled_qty: Dec::zero(),
            avg_fill_price: None,
            trades: Vec::new(),
        }
    }
}

/// One aggregated level of book depth.
#[derive(Clone, Debug)]
pub struct BookLevel {
    pub price: Dec,
    pub qty: Dec,
    pub order_count: u32,
}

/// An order that shows only a slice of its quantity at a time.
#[derive(Clone, Debug)]
pub struct IcebergOrder {
    pub base: Order,
    pub hidden_qty: Dec,
    pub slice_qty: Dec,
}

/// Halts an instrument when a trade moves too far from a reference price.
#[derive(Clone, Debug)]
pub struct CircuitBreaker {
    pub reference_price: Dec,
    pub halt_pct: Dec,
    pub cooldown_secs: u64,
}

/// Per-participant risk limits.
#[derive(Clone, Debug)]
pub struct RiskLimits {
    pub max_order_qty: Dec,
    pub max_order_notional: Dec,
    pub max_open_orders: u32,
    pub daily_notional_limit: Dec,
}

} // verus!
