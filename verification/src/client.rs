//! The session-level view of one connected device.
//!
//! A `Client` owns the immutable type directory discovered at connection
//! time, plus the AMS address the session targets.  Everything here is
//! pure computation over that directory: resolving paths, turning typed
//! or textual values into the exact bytes the device expects, and
//! decoding raw bytes read back.  The transport that moves those bytes is
//! outside this crate: callers hand bytes in and send bytes out.

use vstd::prelude::*;

use crate::codec::{spec_decode_full, spec_encode_value};
use crate::error::AdsError;
use crate::literals::{spec_text_encode, str_and_symbol_to_bytes};
use crate::resolve::spec_resolve;
use crate::schema::{DataTypeV, SymbolV, SymbolsAndDataTypes};
use crate::variables::{Val, Variable};

verus! {

/// The AMS net id and port a session targets.
pub struct ClientBuilder {
    /// The six bytes of the AMS net id.
    pub ams_address: [u8; 6],
    /// The AMS port of the target runtime.
    pub ams_port: u16,
}

impl ClientBuilder {
    /// Targets a different AMS net id.
    pub fn with_ams_address(self, address: [u8; 6]) -> (r: ClientBuilder)
        ensures
            r.ams_address == address,
            r.ams_port == self.ams_port,
    {
        ClientBuilder { ams_address: address, ams_port: self.ams_port }
    }

    /// Targets a different AMS port.
    pub fn with_ams_port(self, port: u16) -> (r: ClientBuilder)
        ensures
            r.ams_address == self.ams_address,
            r.ams_port == port,
    {
        ClientBuilder { ams_address: self.ams_address, ams_port: port }
    }

    /// Finishes the builder against the two schema blobs a transport
    /// uploaded, parsing them into the session's type directory.
    pub fn build(
        self,
        symbol_blob: &[u8],
        n_symbols: u32,
        data_type_blob: &[u8],
        n_data_types: u32,
    ) -> (r: Result<Client, AdsError>)
        ensures
            match r {
                Ok(client) => ({
                    &&& crate::schema::spec_parse_symbols_from(symbol_blob@, 0, n_symbols as nat)
                        == Ok::<_, AdsError>(client.symbols_and_data_types.symbols@)
                    &&& crate::schema::spec_parse_types_from(
                        data_type_blob@,
                        0,
                        n_data_types as nat,
                    ) == Ok::<_, AdsError>(client.symbols_and_data_types.data_types@)
                    &&& client.ams_address == self.ams_address
                    &&& client.ams_port == self.ams_port
                }),
                Err(e) => ({
                    ||| crate::schema::spec_parse_symbols_from(symbol_blob@, 0, n_symbols as nat)
                        == Err::<Seq<crate::schema::SymbolV>, _>(e)
                    ||| (crate::schema::spec_parse_symbols_from(symbol_blob@, 0, n_symbols as nat)
                        is Ok && crate::schema::spec_parse_types_from(
                        data_type_blob@,
                        0,
                        n_data_types as nat,
                    ) == Err::<Seq<DataTypeV>, _>(e))
                }),
            },
    {
        let symbols_and_data_types = match SymbolsAndDataTypes::from_blobs(
            symbol_blob,
            n_symbols,
            data_type_blob,
            n_data_types,
        ) {
            Ok(s) => s,
            Err(e) => {
                return Err(e);
            },
        };
        Ok(Client { ams_address: self.ams_address, ams_port: self.ams_port, symbols_and_data_types })
    }
}

/// One device session's address and discovered type directory.
pub struct Client {
    /// The six bytes of the AMS net id.
    pub ams_address: [u8; 6],
    /// The AMS port of the target runtime.
    pub ams_port: u16,
    /// The directory discovered at connection time, immutable afterwards.
    pub symbols_and_data_types: SymbolsAndDataTypes,
}

/// The bytes a typed value encodes to at a resolved path.
pub open spec fn spec_resolve_and_encode(
    symbols: Seq<SymbolV>,
    types: Seq<DataTypeV>,
    path: Seq<char>,
    v: Val,
) -> Result<Seq<u8>, AdsError> {
    match spec_resolve(symbols, types, path) {
        Err(e) => Err(e),
        Ok((sym, dt)) => spec_encode_value(types, sym, dt.array_ranges, v),
    }
}

/// The bytes a textual literal encodes to at a resolved path.
pub open spec fn spec_resolve_and_encode_text(
    symbols: Seq<SymbolV>,
    types: Seq<DataTypeV>,
    path: Seq<char>,
    text: Seq<char>,
) -> Result<Seq<u8>, AdsError> {
    match spec_resolve(symbols, types, path) {
        Err(e) => Err(e),
        Ok((sym, dt)) => spec_text_encode(text, sym, dt.array_ranges),
    }
}

/// The value raw device bytes decode to at a resolved path.
pub open spec fn spec_resolve_and_decode(
    symbols: Seq<SymbolV>,
    types: Seq<DataTypeV>,
    path: Seq<char>,
    bytes: Seq<u8>,
) -> Result<Val, AdsError> {
    match spec_resolve(symbols, types, path) {
        Err(e) => Err(e),
        Ok((sym, dt)) => spec_decode_full(types, sym, dt, bytes),
    }
}

impl Client {
    /// Starts a builder targeting the local runtime's default address.
    pub fn builder() -> (r: ClientBuilder)
        ensures
            r.ams_address == [127u8, 0u8, 0u8, 1u8, 1u8, 1u8],
            r.ams_port == 851u16,
    {
        ClientBuilder { ams_address: [127, 0, 0, 1, 1, 1], ams_port: 851 }
    }

    /// The AMS net id this session targets.
    pub fn ams_address(&self) -> (r: &[u8; 6])
        ensures
            r == self.ams_address,
    {
        &self.ams_address
    }

    /// The AMS port this session targets.
    pub fn ams_port(&self) -> (r: u16)
        ensures
            r == self.ams_port,
    {
        self.ams_port
    }

    /// The type directory discovered at connection time.
    pub fn symbols_and_data_types(&self) -> (r: &SymbolsAndDataTypes)
        ensures
            r.symbols@ == self.symbols_and_data_types.symbols@,
            r.data_types@ == self.symbols_and_data_types.data_types@,
    {
        &self.symbols_and_data_types
    }

    /// Checks that a path resolves, without touching the device.
    pub fn verify_ads_path(&self, value_name: &str) -> (r: Result<(), AdsError>)
        ensures
            match r {
                Ok(()) => spec_resolve(
                    self.symbols_and_data_types.symbols@,
                    self.symbols_and_data_types.data_types@,
                    value_name@,
                ) is Ok,
                Err(e) => spec_resolve(
                    self.symbols_and_data_types.symbols@,
                    self.symbols_and_data_types.data_types@,
                    value_name@,
                ) == Err::<(SymbolV, DataTypeV), _>(e),
            },
    {
        match self.symbols_and_data_types.get_symbol_and_data_type(value_name) {
            Ok(_) => Ok(()),
            Err(e) => Err(e),
        }
    }

    /// Checks that a path resolves and that the value's shape matches
    /// its declared type, without touching the device.
    pub fn verify_ads_path_and_variable_type(&self, value_name: &str, value: Variable) -> (r:
        Result<(), AdsError>)
        ensures
            match r {
                Ok(()) => spec_resolve_and_encode(
                    self.symbols_and_data_types.symbols@,
                    self.symbols_and_data_types.data_types@,
                    value_name@,
                    value@,
                ) is Ok,
                Err(e) => spec_resolve_and_encode(
                    self.symbols_and_data_types.symbols@,
                    self.symbols_and_data_types.data_types@,
                    value_name@,
                    value@,
                ) == Err::<Seq<u8>, _>(e),
            },
    {
        match self.set_value(value_name, value) {
            Ok(_) => Ok(()),
            Err(e) => Err(e),
        }
    }

    /// Checks that a path resolves and that the textual literal encodes
    /// under its declared type, without touching the device.
    pub fn verify_ads_path_and_str_variable(&self, value_name: &str, value: &str) -> (r: Result<
        (),
        AdsError,
    >)
        ensures
            match r {
                Ok(()) => spec_resolve_and_encode_text(
                    self.symbols_and_data_types.symbols@,
                    self.symbols_and_data_types.data_types@,
                    value_name@,
                    value@,
                ) is Ok,
                Err(e) => spec_resolve_and_encode_text(
                    self.symbols_and_data_types.symbols@,
                    self.symbols_and_data_types.data_types@,
                    value_name@,
                    value@,
                ) == Err::<Seq<u8>, _>(e),
            },
    {
        match self.set_value_from_str(value_name, value) {
            Ok(_) => Ok(()),
            Err(e) => Err(e),
        }
    }

    /// Encodes a typed value into the exact write payload for a path;
    /// the transport sends the returned bytes as they are.
    pub fn set_value(&self, value_name: &str, value: Variable) -> (r: Result<Vec<u8>, AdsError>)
        ensures
            match r {
                Ok(b) => spec_resolve_and_encode(
                    self.symbols_and_data_types.symbols@,
                    self.symbols_and_data_types.data_types@,
                    value_name@,
                    value@,
                ) == Ok::<_, AdsError>(b@),
                Err(e) => spec_resolve_and_encode(
                    self.symbols_and_data_types.symbols@,
                    self.symbols_and_data_types.data_types@,
                    value_name@,
                    value@,
                ) == Err::<Seq<u8>, _>(e),
            },
    {
        let (symbol, data_type) = match self.symbols_and_data_types.get_symbol_and_data_type(
            value_name,
        ) {
            Ok(sd) => sd,
            Err(e) => {
                return Err(e);
            },
        };
        value.to_bytes(&self.symbols_and_data_types.data_types, symbol, data_type)
    }

    /// Encodes a textual literal into the exact write payload for a
    /// path; the transport sends the returned bytes as they are.
    pub fn set_value_from_str(&self, value_name: &str, value: &str) -> (r: Result<
        Vec<u8>,
        AdsError,
    >)
        ensures
            match r {
                Ok(b) => spec_resolve_and_encode_text(
                    self.symbols_and_data_types.symbols@,
                    self.symbols_and_data_types.data_types@,
                    value_name@,
                    value@,
                ) == Ok::<_, AdsError>(b@),
                Err(e) => spec_resolve_and_encode_text(
                    self.symbols_and_data_types.symbols@,
                    self.symbols_and_data_types.data_types@,
                    value_name@,
                    value@,
                ) == Err::<Seq<u8>, _>(e),
            },
    {
        let (symbol, data_type) = match self.symbols_and_data_types.get_symbol_and_data_type(
            value_name,
        ) {
            Ok(sd) => sd,
            Err(e) => {
                return Err(e);
            },
        };
        str_and_symbol_to_bytes(value, symbol, data_type)
    }

    /// Decodes the raw bytes a transport read for a path into the typed
    /// value they hold.
    pub fn get_value(&self, value_name: &str, bytes: &[u8]) -> (r: Result<Variable, AdsError>)
        ensures
            match r {
                Ok(v) => spec_resolve_and_decode(
                    self.symbols_and_data_types.symbols@,
                    self.symbols_and_data_types.data_types@,
                    value_name@,
                    bytes@,
                ) == Ok::<_, AdsError>(v@),
                Err(e) => spec_resolve_and_decode(
                    self.symbols_and_data_types.symbols@,
                    self.symbols_and_data_types.data_types@,
                    value_name@,
                    bytes@,
                ) == Err::<Val, _>(e),
            },
    {
        let (symbol, data_type) = match self.symbols_and_data_types.get_symbol_and_data_type(
            value_name,
        ) {
            Ok(sd) => sd,
            Err(e) => {
                return Err(e);
            },
        };
        Variable::from_bytes(&self.symbols_and_data_types.data_types, symbol, data_type, bytes)
    }
}

} // verus!
