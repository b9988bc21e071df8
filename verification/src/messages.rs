//! The messages of the exchange, as plain values.

use vstd::prelude::*;

verus! {

/// A full depth snapshot.  Each entry is a price and a quantity in decimal.
#[derive(Debug)]
pub struct RestDepthResponse {
    pub last_update_id: u64,
    pub bids: Vec<[String; 2]>,
    pub asks: Vec<[String; 2]>,
}

/// The clock of the exchange, in milliseconds.
#[derive(Debug)]
pub struct ServerTimeResponse {
    pub server_time: u64,
}

/// The symbols of the exchange.
#[derive(Debug)]
pub struct ExchangeInfoResponse {
    pub symbols: Vec<ExchangeSymbolInfo>,
}

/// A symbol of the exchange.  Each filter is a piece of JSON.
#[derive(Debug, Clone)]
pub struct ExchangeSymbolInfo {
    pub symbol: String,
    pub filters: Vec<String>,
    pub base_asset: String,
    pub quote_asset: String,
    pub contract_type: String,
    pub status: String,
}

/// A change of the book.  Each entry is a price and the quantity it now has,
/// in decimal; a quantity of zero takes the price out.
#[derive(Debug, Clone)]
pub struct WsDepthUpdate {
    pub event_type: String,
    pub event_time: u64,
    pub transaction_time: u64,
    pub symbol: String,
    pub first_update_id: u64,
    pub final_update_id: u64,
    pub prev_final_update_id: u64,
    pub bids: Vec<[String; 2]>,
    pub asks: Vec<[String; 2]>,
}

/// An aggregated trade.
#[derive(Debug, Clone)]
pub struct WsAggTrade {
    pub event_type: String,
    pub event_time: u64,
    pub symbol: String,
    pub agg_trade_id: u64,
    pub price: String,
    pub quantity: String,
    pub first_trade_id: u64,
    pub last_trade_id: u64,
    pub trade_time: u64,
    pub is_buyer_maker: bool,
}

/// The rolling day statistics of one symbol.
#[derive(Debug)]
pub struct WsMiniTicker {
    pub event_type: String,
    pub event_time: u64,
    pub symbol: String,
    pub close_price: String,
    pub open_price: String,
    pub high_price: String,
    pub low_price: String,
    pub base_volume: String,
    pub quote_volume: String,
}

} // verus!
