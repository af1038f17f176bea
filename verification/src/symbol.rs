use vstd::prelude::*;

verus! {

/// The markets the exchange lists, each a pair of a traded asset and a quote currency.
#[derive(Copy, Clone, PartialEq, Eq, Hash, Debug, Structural)]
pub enum Symbol {
    UsdtInr,
    BtcInr,
    EthInr,
    SolInr,
    BtcUsdt,
    EthUsdt,
    SolUsdt,
    BnbUsdt,
    XrpUsdt,
    BtcUsdc,
    EthUsdc,
    InrUsdt,
}

/// Currencies, all counted in their smallest unit.
#[derive(Copy, Clone, PartialEq, Eq, Hash, Debug, Structural)]
pub enum Currency {
    Usdt,
    Btc,
    Eth,
    Sol,
    Inr,
    Bnb,
    Xrp,
    Usdc,
}

/// The market's name as it is written on the wire, such as "BTC-INR".
pub open spec fn symbol_name(s: Symbol) -> Seq<char> {
    match s {
        Symbol::BnbUsdt => "BNB-USDT"@,
        Symbol::BtcInr => "BTC-INR"@,
        Symbol::BtcUsdc => "BTC-USDC"@,
        Symbol::BtcUsdt => "BTC-USDT"@,
        Symbol::EthInr => "ETH-INR"@,
        Symbol::EthUsdc => "ETH-USDC"@,
        Symbol::EthUsdt => "ETH-USDT"@,
        Symbol::InrUsdt => "INR-USDT"@,
        Symbol::SolInr => "SOL-INR"@,
        Symbol::SolUsdt => "SOL-USDT"@,
        Symbol::UsdtInr => "USDT-INR"@,
        Symbol::XrpUsdt => "XRP-USDT"@,
    }
}

/// The currency that a market's quantities are counted in (the base asset).
pub open spec fn quantity_unit(s: Symbol) -> Currency {
    match s {
        Symbol::BnbUsdt => Currency::Bnb,
        Symbol::BtcInr | Symbol::BtcUsdc | Symbol::BtcUsdt => Currency::Btc,
        Symbol::EthInr | Symbol::EthUsdc | Symbol::EthUsdt => Currency::Eth,
        Symbol::InrUsdt => Currency::Inr,
        Symbol::SolInr | Symbol::SolUsdt => Currency::Sol,
        Symbol::UsdtInr => Currency::Usdt,
        Symbol::XrpUsdt => Currency::Xrp,
    }
}

/// The currency that a market's prices are counted in (the quote asset).
pub open spec fn price_unit(s: Symbol) -> Currency {
    match s {
        Symbol::BnbUsdt | Symbol::BtcUsdt | Symbol::EthUsdt | Symbol::InrUsdt | Symbol::SolUsdt
        | Symbol::XrpUsdt => Currency::Usdt,
        Symbol::BtcInr | Symbol::EthInr | Symbol::SolInr | Symbol::UsdtInr => Currency::Inr,
        Symbol::BtcUsdc | Symbol::EthUsdc => Currency::Usdc,
    }
}

/// The numeric asset id a currency is kept under: its place in the list of currencies.
pub open spec fn currency_asset_id(c: Currency) -> u64 {
    match c {
        Currency::Usdt => 0,
        Currency::Btc => 1,
        Currency::Eth => 2,
        Currency::Sol => 3,
        Currency::Inr => 4,
        Currency::Bnb => 5,
        Currency::Xrp => 6,
        Currency::Usdc => 7,
    }
}

impl Currency {
    pub fn asset_id(&self) -> (r: u64)
        ensures
            r == currency_asset_id(*self),
    {
        match self {
            Currency::Usdt => 0,
            Currency::Btc => 1,
            Currency::Eth => 2,
            Currency::Sol => 3,
            Currency::Inr => 4,
            Currency::Bnb => 5,
            Currency::Xrp => 6,
            Currency::Usdc => 7,
        }
    }
}

impl Symbol {
    /// Every listed market, in alphabetical order of its name.
    pub const ALL: [Symbol; 12] = [
        Symbol::BnbUsdt,
        Symbol::BtcInr,
        Symbol::BtcUsdc,
        Symbol::BtcUsdt,
        Symbol::EthInr,
        Symbol::EthUsdc,
        Symbol::EthUsdt,
        Symbol::InrUsdt,
        Symbol::SolInr,
        Symbol::SolUsdt,
        Symbol::UsdtInr,
        Symbol::XrpUsdt,
    ];

    pub fn as_str(&self) -> (r: &'static str)
        ensures
            r@ == symbol_name(*self),
    {
        match self {
            Symbol::BnbUsdt => "BNB-USDT",
            Symbol::BtcInr => "BTC-INR",
            Symbol::BtcUsdc => "BTC-USDC",
            Symbol::BtcUsdt => "BTC-USDT",
            Symbol::EthInr => "ETH-INR",
            Symbol::EthUsdc => "ETH-USDC",
            Symbol::EthUsdt => "ETH-USDT",
            Symbol::InrUsdt => "INR-USDT",
            Symbol::SolInr => "SOL-INR",
            Symbol::SolUsdt => "SOL-USDT",
            Symbol::UsdtInr => "USDT-INR",
            Symbol::XrpUsdt => "XRP-USDT",
        }
    }

    pub fn get_quantity_unit(&self) -> (r: Currency)
        ensures
            r == quantity_unit(*self),
    {
        match self {
            Symbol::BnbUsdt => Currency::Bnb,
            Symbol::BtcInr => Currency::Btc,
            Symbol::BtcUsdc => Currency::Btc,
            Symbol::BtcUsdt => Currency::Btc,
            Symbol::EthInr => Currency::Eth,
            Symbol::EthUsdc => Currency::Eth,
            Symbol::EthUsdt => Currency::Eth,
            Symbol::InrUsdt => Currency::Inr,
            Symbol::SolInr => Currency::Sol,
            Symbol::SolUsdt => Currency::Sol,
            Symbol::UsdtInr => Currency::Usdt,
            Symbol::XrpUsdt => Currency::Xrp,
        }
    }

    pub fn get_price_unit(&self) -> (r: Currency)
        ensures
            r == price_unit(*self),
    {
        match self {
            Symbol::BnbUsdt => Currency::Usdt,
            Symbol::BtcInr => Currency::Inr,
            Symbol::BtcUsdc => Currency::Usdc,
            Symbol::BtcUsdt => Currency::Usdt,
            Symbol::EthInr => Currency::Inr,
            Symbol::EthUsdc => Currency::Usdc,
            Symbol::EthUsdt => Currency::Usdt,
            Symbol::InrUsdt => Currency::Usdt,
            Symbol::SolInr => Currency::Inr,
            Symbol::SolUsdt => Currency::Usdt,
            Symbol::UsdtInr => Currency::Inr,
            Symbol::XrpUsdt => Currency::Usdt,
        }
    }
}

} // verus!
