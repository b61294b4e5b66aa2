//! The whole pipeline: schema blobs in, resolved reads and writes out.

use twincat::client::Client;
use twincat::error::AdsError;
use twincat::variables::Variable;

fn push_u32(out: &mut Vec<u8>, x: u32) {
    out.extend_from_slice(&x.to_le_bytes());
}

fn push_u16(out: &mut Vec<u8>, x: u16) {
    out.extend_from_slice(&x.to_le_bytes());
}

fn symbol_record(name: &str, declared: &str, tag: u32, flags: u32) -> Vec<u8> {
    let mut out = Vec::new();
    let entry_length = 30 + name.len() + 1 + declared.len() + 1;
    push_u32(&mut out, entry_length as u32);
    push_u32(&mut out, 16448);
    push_u32(&mut out, 0);
    push_u32(&mut out, 0);
    push_u32(&mut out, tag);
    push_u32(&mut out, flags);
    push_u16(&mut out, name.len() as u16);
    push_u16(&mut out, declared.len() as u16);
    push_u16(&mut out, 0);
    out.extend_from_slice(name.as_bytes());
    out.push(0);
    out.extend_from_slice(declared.as_bytes());
    out.push(0);
    out
}

fn type_record(name: &str, size: u32) -> Vec<u8> {
    let mut out = Vec::new();
    let entry_length = 42 + name.len() + 1 + 1;
    push_u32(&mut out, entry_length as u32);
    push_u32(&mut out, 0);
    push_u32(&mut out, 0);
    push_u32(&mut out, 0);
    push_u32(&mut out, size);
    push_u32(&mut out, 0);
    push_u32(&mut out, 0);
    push_u32(&mut out, 0);
    push_u16(&mut out, name.len() as u16);
    push_u16(&mut out, 0);
    push_u16(&mut out, 0);
    push_u16(&mut out, 0);
    push_u16(&mut out, 0);
    out.extend_from_slice(name.as_bytes());
    out.push(0);
    out.push(0);
    out
}

fn blob_client() -> Client {
    let symbol_blob = symbol_record("garden.plants", "ARRAY [0..255] OF INT", 2, 1);
    let mut type_blob = type_record("INT", 2);
    type_blob.extend_from_slice(&type_record("ARRAY [0..255] OF INT", 512));
    Client::builder()
        .with_ams_address([192, 168, 0, 7, 1, 1])
        .with_ams_port(852)
        .build(&symbol_blob, 1, &type_blob, 2)
        .unwrap()
}

#[test]
fn build_from_blobs_and_resolve() {
    let client = blob_client();
    assert_eq!(client.ams_port(), 852);
    assert_eq!(client.ams_address(), &[192, 168, 0, 7, 1, 1]);

    assert!(client.verify_ads_path("garden.plants").is_ok());
    assert!(client.verify_ads_path("garden.plants[17]").is_ok());
    assert_eq!(
        client.verify_ads_path("garden.weeds").unwrap_err(),
        AdsError::NotFound
    );
    assert_eq!(
        client.verify_ads_path("garden.plants[0][1]").unwrap_err(),
        AdsError::OutOfBounds
    );
}

#[test]
fn verify_value_shapes_without_io() {
    let client = blob_client();
    assert!(client
        .verify_ads_path_and_variable_type("garden.plants[0]", Variable::I16(1))
        .is_ok());
    assert_eq!(
        client
            .verify_ads_path_and_variable_type("garden.plants[0]", Variable::Bool(true))
            .unwrap_err(),
        AdsError::TypeMismatch
    );
    assert!(client
        .verify_ads_path_and_str_variable("garden.plants[0]", "12")
        .is_ok());
    assert_eq!(
        client
            .verify_ads_path_and_str_variable("garden.plants[0]", "twelve")
            .unwrap_err(),
        AdsError::InvalidArgument
    );
}

/// A symbol uploaded with the persistent flag bit set is reported by
/// the persistent query.
#[test]
fn persistent_flag_flows_from_the_blob() {
    let client = blob_client();
    assert_eq!(
        client.symbols_and_data_types().persistent(),
        vec![String::from("garden.plants")]
    );
}
