use ethabi::{decode, decode_impl, decode_validate, Error, Fault, ParamType, Token};

fn hex(s: &str) -> Vec<u8> {
    let digits: Vec<u8> = s
        .bytes()
        .filter(|c| !c.is_ascii_whitespace())
        .map(|c| match c {
            b'0'..=b'9' => c - b'0',
            b'a'..=b'f' => c - b'a' + 10,
            b'A'..=b'F' => c - b'A' + 10,
            _ => panic!("not a hex digit"),
        })
        .collect();
    assert!(digits.len() % 2 == 0);
    digits.chunks(2).map(|p| p[0] * 16 + p[1]).collect()
}

fn word_of(v: u64) -> [u8; 32] {
    let mut w = [0u8; 32];
    w[24..].copy_from_slice(&v.to_be_bytes());
    w
}

fn address(b: u8) -> Token {
    Token::Address([b; 20])
}

fn string(s: &str) -> Token {
    Token::String(s.to_owned())
}

#[test]
fn decode_from_empty_byte_slice() {
    // these can NOT be decoded from empty byte slice
    assert!(decode(&[ParamType::Address], &[]).is_err());
    assert!(decode(&[ParamType::Bytes], &[]).is_err());
    assert!(decode(&[ParamType::Int(0)], &[]).is_err());
    assert!(decode(&[ParamType::Int(1)], &[]).is_err());
    assert!(decode(&[ParamType::Int(0)], &[]).is_err());
    assert!(decode(&[ParamType::Int(1)], &[]).is_err());
    assert!(decode(&[ParamType::Bool], &[]).is_err());
    assert!(decode(&[ParamType::String], &[]).is_err());
    assert!(decode(&[ParamType::Array(Box::new(ParamType::Bool))], &[]).is_err());
    assert!(decode(&[ParamType::FixedBytes(1)], &[]).is_err());
    assert!(decode(&[ParamType::FixedArray(Box::new(ParamType::Bool), 1)], &[]).is_err());

    // these are the only ones that can be decoded from empty byte slice
    assert!(decode(&[ParamType::FixedBytes(0)], &[]).is_ok());
    assert!(decode(&[ParamType::FixedArray(Box::new(ParamType::Bool), 0)], &[]).is_ok());
}

#[test]
fn decode_static_tuple_of_addresses_and_uints() {
    let encoded = hex("
        0000000000000000000000001111111111111111111111111111111111111111
        0000000000000000000000002222222222222222222222222222222222222222
        1111111111111111111111111111111111111111111111111111111111111111
    ");
    let uint = Token::Uint([0x11u8; 32]);
    let tuple = Token::Tuple(vec![address(0x11), address(0x22), uint]);
    let expected = vec![tuple];
    let decoded =
        decode(&[ParamType::Tuple(vec![ParamType::Address, ParamType::Address, ParamType::Uint(32)])], &encoded)
            .unwrap();
    assert_eq!(decoded, expected);
}

#[test]
fn decode_dynamic_tuple() {
    let encoded = hex("
        0000000000000000000000000000000000000000000000000000000000000020
        0000000000000000000000000000000000000000000000000000000000000040
        0000000000000000000000000000000000000000000000000000000000000080
        0000000000000000000000000000000000000000000000000000000000000009
        6761766f66796f726b0000000000000000000000000000000000000000000000
        0000000000000000000000000000000000000000000000000000000000000009
        6761766f66796f726b0000000000000000000000000000000000000000000000
    ");
    let tuple = Token::Tuple(vec![string("gavofyork"), string("gavofyork")]);
    let decoded = decode(&[ParamType::Tuple(vec![ParamType::String, ParamType::String])], &encoded).unwrap();
    let expected = vec![tuple];
    assert_eq!(decoded, expected);
}

#[test]
fn decode_nested_tuple() {
    let encoded = hex("
        0000000000000000000000000000000000000000000000000000000000000020
        0000000000000000000000000000000000000000000000000000000000000080
        0000000000000000000000000000000000000000000000000000000000000001
        00000000000000000000000000000000000000000000000000000000000000c0
        0000000000000000000000000000000000000000000000000000000000000100
        0000000000000000000000000000000000000000000000000000000000000004
        7465737400000000000000000000000000000000000000000000000000000000
        0000000000000000000000000000000000000000000000000000000000000006
        6379626f72670000000000000000000000000000000000000000000000000000
        0000000000000000000000000000000000000000000000000000000000000060
        00000000000000000000000000000000000000000000000000000000000000a0
        00000000000000000000000000000000000000000000000000000000000000e0
        0000000000000000000000000000000000000000000000000000000000000005
        6e69676874000000000000000000000000000000000000000000000000000000
        0000000000000000000000000000000000000000000000000000000000000003
        6461790000000000000000000000000000000000000000000000000000000000
        0000000000000000000000000000000000000000000000000000000000000040
        0000000000000000000000000000000000000000000000000000000000000080
        0000000000000000000000000000000000000000000000000000000000000004
        7765656500000000000000000000000000000000000000000000000000000000
        0000000000000000000000000000000000000000000000000000000000000008
        66756e7465737473000000000000000000000000000000000000000000000000
    ");
    let deep_tuple = Token::Tuple(vec![string("weee"), string("funtests")]);
    let inner_tuple = Token::Tuple(vec![string("night"), string("day"), deep_tuple]);
    let outer_tuple = Token::Tuple(vec![string("test"), Token::Bool(true), string("cyborg"), inner_tuple]);
    let expected = vec![outer_tuple];
    let decoded = decode(
        &[ParamType::Tuple(vec![
            ParamType::String,
            ParamType::Bool,
            ParamType::String,
            ParamType::Tuple(vec![
                ParamType::String,
                ParamType::String,
                ParamType::Tuple(vec![ParamType::String, ParamType::String]),
            ]),
        ])],
        &encoded,
    )
    .unwrap();
    assert_eq!(decoded, expected);
}

#[test]
fn decode_complex_tuple_of_dynamic_and_static_types() {
    let encoded = hex("
        0000000000000000000000000000000000000000000000000000000000000020
        1111111111111111111111111111111111111111111111111111111111111111
        0000000000000000000000000000000000000000000000000000000000000080
        0000000000000000000000001111111111111111111111111111111111111111
        0000000000000000000000002222222222222222222222222222222222222222
        0000000000000000000000000000000000000000000000000000000000000009
        6761766f66796f726b0000000000000000000000000000000000000000000000
    ");
    let uint = Token::Uint([0x11u8; 32]);
    let tuple = Token::Tuple(vec![uint, string("gavofyork"), address(0x11), address(0x22)]);
    let expected = vec![tuple];
    let decoded = decode(
        &[ParamType::Tuple(vec![ParamType::Uint(32), ParamType::String, ParamType::Address, ParamType::Address])],
        &encoded,
    )
    .unwrap();
    assert_eq!(decoded, expected);
}

#[test]
fn decode_params_containing_dynamic_tuple() {
    let encoded = hex("
        0000000000000000000000002222222222222222222222222222222222222222
        00000000000000000000000000000000000000000000000000000000000000a0
        0000000000000000000000003333333333333333333333333333333333333333
        0000000000000000000000004444444444444444444444444444444444444444
        0000000000000000000000000000000000000000000000000000000000000000
        0000000000000000000000000000000000000000000000000000000000000001
        0000000000000000000000000000000000000000000000000000000000000060
        00000000000000000000000000000000000000000000000000000000000000a0
        0000000000000000000000000000000000000000000000000000000000000009
        7370616365736869700000000000000000000000000000000000000000000000
        0000000000000000000000000000000000000000000000000000000000000006
        6379626f72670000000000000000000000000000000000000000000000000000
    ");
    let tuple = Token::Tuple(vec![Token::Bool(true), string("spaceship"), string("cyborg")]);
    let expected = vec![address(0x22), tuple, address(0x33), address(0x44), Token::Bool(false)];
    let decoded = decode(
        &[
            ParamType::Address,
            ParamType::Tuple(vec![ParamType::Bool, ParamType::String, ParamType::String]),
            ParamType::Address,
            ParamType::Address,
            ParamType::Bool,
        ],
        &encoded,
    )
    .unwrap();
    assert_eq!(decoded, expected);
}

#[test]
fn decode_params_containing_static_tuple() {
    let encoded = hex("
        0000000000000000000000001111111111111111111111111111111111111111
        0000000000000000000000002222222222222222222222222222222222222222
        0000000000000000000000000000000000000000000000000000000000000001
        0000000000000000000000000000000000000000000000000000000000000000
        0000000000000000000000003333333333333333333333333333333333333333
        0000000000000000000000004444444444444444444444444444444444444444
    ");
    let tuple = Token::Tuple(vec![address(0x22), Token::Bool(true), Token::Bool(false)]);
    let expected = vec![address(0x11), tuple, address(0x33), address(0x44)];
    let decoded = decode(
        &[
            ParamType::Address,
            ParamType::Tuple(vec![ParamType::Address, ParamType::Bool, ParamType::Bool]),
            ParamType::Address,
            ParamType::Address,
        ],
        &encoded,
    )
    .unwrap();
    assert_eq!(decoded, expected);
}

#[test]
fn decode_data_with_size_that_is_not_a_multiple_of_32() {
    let encoded = hex("
        0000000000000000000000000000000000000000000000000000000000000000
        00000000000000000000000000000000000000000000000000000000000000a0
        0000000000000000000000000000000000000000000000000000000000000152
        0000000000000000000000000000000000000000000000000000000000000001
        000000000000000000000000000000000000000000000000000000000054840d
        0000000000000000000000000000000000000000000000000000000000000092
        3132323033393637623533326130633134633938306235616566666231373034
        3862646661656632633239336139353039663038656233633662306635663866
        3039343265376239636337366361353163636132366365353436393230343438
        6533303866646136383730623565326165313261323430396439343264653432
        3831313350373230703330667073313678390000000000000000000000000000
        0000000000000000000000000000000000103933633731376537633061363531
        3761
    ");

    assert_eq!(
        decode(
            &[ParamType::Uint(256), ParamType::String, ParamType::String, ParamType::Uint(256), ParamType::Uint(256),],
            &encoded,
        )
        .unwrap(),
        &[
            Token::Uint(word_of(0)),
            string("12203967b532a0c14c980b5aeffb17048bdfaef2c293a9509f08eb3c6b0f5f8f0942e7b9cc76ca51cca26ce546920448e308fda6870b5e2ae12a2409d942de428113P720p30fps16x9"),
            string("93c717e7c0a6517a"),
            Token::Uint(word_of(1)),
            Token::Uint(word_of(5538829)),
        ]
    );
}

#[test]
fn decode_after_fixed_bytes_with_less_than_32_bytes() {
    let encoded = hex("
        0000000000000000000000008497afefdc5ac170a664a231f6efb25526ef813f
        0000000000000000000000000000000000000000000000000000000000000000
        0000000000000000000000000000000000000000000000000000000000000000
        0000000000000000000000000000000000000000000000000000000000000080
        000000000000000000000000000000000000000000000000000000000000000a
        3078303030303030314600000000000000000000000000000000000000000000
    ");
    let mut addr = [0u8; 20];
    addr.copy_from_slice(&hex("8497afefdc5ac170a664a231f6efb25526ef813f"));

    assert_eq!(
        decode(&[ParamType::Address, ParamType::FixedBytes(32), ParamType::FixedBytes(4), ParamType::String,], &encoded,)
            .unwrap(),
        &[
            Token::Address(addr),
            Token::FixedBytes([0u8; 32].to_vec()),
            Token::FixedBytes([0u8; 4].to_vec()),
            string("0x0000001F"),
        ]
    )
}

#[test]
fn decode_broken_utf8() {
    let encoded = hex("
        0000000000000000000000000000000000000000000000000000000000000020
        0000000000000000000000000000000000000000000000000000000000000004
        e4b88de500000000000000000000000000000000000000000000000000000000
    ");

    assert_eq!(decode(&[ParamType::String,], &encoded).unwrap(), &[string("\u{4e0d}\u{fffd}")]);
}

#[test]
fn decode_corrupted_dynamic_array() {
    // line 1 at 0x00 =   0: tail offset of array
    // line 2 at 0x20 =  32: length of array
    // line 3 at 0x40 =  64: first word
    // line 4 at 0x60 =  96: second word
    let encoded = hex("
        0000000000000000000000000000000000000000000000000000000000000020
        00000000000000000000000000000000000000000000000000000000ffffffff
        0000000000000000000000000000000000000000000000000000000000000001
        0000000000000000000000000000000000000000000000000000000000000002
    ");

    assert!(decode(&[ParamType::Array(Box::new(ParamType::Uint(32)))], &encoded).is_err());
}

#[test]
fn decode_corrupted_nested_array_tuple() {
    let input = hex("
        0000000000000000000000000000000000000000000000000000000000000040

        00000000000000000000000000000000000000000000000000000000000002a0
        0000000000000000000000000000000000000000000000000000000000000009

        00000000000000000000000000000000fffffffffffffffffffffffffffffffe
        0000000000000000000000000000000000000000000000000000000000000000

        0000000000000000000000000000000000000000000000000000000000000000
        0000000000000000000000000000000000000000000000000000000000000000

        0000000000000000000000000000000000000000000000000000000000000000
        000000000000000000000000000000000000000000000000ffffffffffffffff

        0008000000000000000000000000000000000000000000000000000000000000
        0000000000000000000000000000000000000000000000020000000000000000

        0000000000000000000000000000000000000000000000000000000000000000
        0000000000000000000000000001000000000000000000000000000000000000

        000000000000000000000000000000000000000000000000000000000000053a
        0100000000000000000000000000000000000000000000000000000000000000

        0000000000000010000000000000000000000000000000000000000000000000
        0000000000000000000000000000000000000000000000000000000000000000

        0000000000000000000000000000000000000000000000000000000002000000
        0000000000000000000000000000000000000000000000000000000000100000

        0000000000000000000000000000000000000000000000000000000000000000
        ffffffffffffffffffffffffffffffffffffffffffffffffffffffffffffffff

        0000000000000000000000000000000000000000000000000000000000000006
        00000000000000000000000000000000000000000000000000000000000000c0

        0000000000000000000000000000000000000000000000000000000000002ce0
        0000000000000000000000000000000000000000000000000000000000005880

        0000000000000000000000000000000000000000000000000000000000008280
        000000000000000000000000000000000000000000000000000000000000acc0

        000000000000000000000000000000000000000000000000000000000000d6e0
        0000000000000000000000000000000000000000020000000000000000000000

        0000000000000000000000000000000000000000000000000000000000000040
        0000000000000000000000000000000000000000000000000000000000000009

        0000000000000000000000000000000000000000000000000000000000000120
        0000000000000000000000000000000000000000000000000000000000000720

        0000000000000000000000000000000000000000000000000000000000000b80
        0000000000000000000000000000000000000000000000000000000000000fe0
    ");

    // the inputs of a function `f_tuple(c, d)`
    let inputs = [
        ParamType::Array(Box::new(ParamType::Tuple(vec![ParamType::Uint(256), ParamType::Uint(256)]))),
        ParamType::Array(Box::new(ParamType::Tuple(vec![
            ParamType::Uint(256),
            ParamType::Array(Box::new(ParamType::Tuple(vec![
                ParamType::Uint(256),
                ParamType::Array(Box::new(ParamType::String)),
            ]))),
        ]))),
    ];
    assert!(decode(&inputs, &input).is_err());
}

#[test]
fn decode_corrupted_fixed_array_of_strings() {
    let input = hex("
        0000000000000000000000000000000000000000000000000000000000000001
        0000000000000000000000000000000000000000000000000000000001000040
        0000000000000000000000000000000000000000000000000000000000000040
        0000000000000000000000000000000000000000000000000000000000000080
        0000000000000000000000000000000000000000000000000000000000000008
        5445535454455354000000000000000000000000000000000000000000000000
        0000000000000000000000000000000000000000000000000000000000000008
        5445535454455354000000000000000000000000000000000000000000000000
    ");

    // the inputs of a function `f(i, p)`
    let inputs = [ParamType::Uint(256), ParamType::FixedArray(Box::new(ParamType::String), 2)];
    assert!(decode(&inputs, &input).is_err());
}

#[test]
fn decode_verify_addresses() {
    let input = hex("
        0000000000000000000000000000000000000000000000000000000000012345
        0000000000000000000000000000000000000000000000000000000000054321
    ");
    assert!(decode(&[ParamType::Address], &input).is_ok());
    assert!(decode_validate(&[ParamType::Address], &input).is_err());
    assert!(decode_validate(&[ParamType::Address, ParamType::Address], &input).is_ok());
}

#[test]
fn decode_verify_bytes() {
    let input = hex("
        0000000000000000000000001234500000000000000000000000000000012345
        0000000000000000000000005432100000000000000000000000000000054321
    ");
    assert!(decode_validate(&[ParamType::Address, ParamType::FixedBytes(20)], &input).is_err());
    assert!(decode_validate(&[ParamType::Address, ParamType::Address], &input).is_ok());
}

fn words(ws: &[[u8; 32]]) -> Vec<u8> {
    ws.iter().flat_map(|w| w.iter().copied()).collect()
}

#[test]
fn empty_input_gives_its_own_error() {
    match decode(&[ParamType::Address], &[]) {
        Err(Error::InvalidName(m)) => assert!(m.starts_with("please ensure the contract and method you're calling exist!")),
        other => panic!("unexpected result {:?}", other),
    }
    assert!(matches!(decode_validate(&[ParamType::String], &[]), Err(Error::InvalidName(_))));
    assert_eq!(decode(&[ParamType::FixedBytes(0)], &[]), Ok(vec![Token::FixedBytes(vec![])]));
    assert_eq!(decode(&[ParamType::Tuple(vec![])], &[]), Ok(vec![Token::Tuple(vec![])]));
    // nothing is read for a zero-length value, so nothing is left over
    assert_eq!(decode_validate(&[ParamType::FixedBytes(0)], &[]), Ok(vec![Token::FixedBytes(vec![])]));
    assert_eq!(decode(&[], &[]), Ok(vec![]));
    assert_eq!(decode_validate(&[], &[]), Ok(vec![]));
}

#[test]
fn strict_mode_rejects_high_address_bytes() {
    let input = hex("0000000000000000001234500000000000000000000000000000000000012345");
    let mut addr = [0u8; 20];
    addr[17] = 0x01;
    addr[18] = 0x23;
    addr[19] = 0x45;
    assert_eq!(decode(&[ParamType::Address], &input), Ok(vec![Token::Address(addr)]));
    assert_eq!(decode_validate(&[ParamType::Address], &input), Err(Error::InvalidData));
}

#[test]
fn strict_mode_rejects_unused_input() {
    let input = words(&[word_of(7), word_of(8)]);
    assert_eq!(decode(&[ParamType::Uint(256)], &input), Ok(vec![Token::Uint(word_of(7))]));
    assert_eq!(decode_validate(&[ParamType::Uint(256)], &input), Err(Error::InvalidData));
}

#[test]
fn bool_word_must_be_zero_or_one() {
    assert_eq!(decode(&[ParamType::Bool], &word_of(1)), Ok(vec![Token::Bool(true)]));
    assert_eq!(decode(&[ParamType::Bool], &word_of(0)), Ok(vec![Token::Bool(false)]));
    assert_eq!(decode(&[ParamType::Bool], &word_of(2)), Err(Error::InvalidData));
    assert_eq!(decode(&[ParamType::Bool], &word_of(0x100)), Err(Error::InvalidData));
}

#[test]
fn unaligned_string_decodes_in_both_modes() {
    let mut input = words(&[word_of(0x20), word_of(0x92)]);
    input.extend(std::iter::repeat(b'a').take(0x92));
    input.extend(std::iter::repeat(0u8).take(160 - 0x92));
    let expected = vec![Token::String("a".repeat(0x92))];
    assert_eq!(decode(&[ParamType::String], &input).unwrap(), expected);
    assert_eq!(decode_validate(&[ParamType::String], &input).unwrap(), expected);
    // a byte after the padding is left unread
    input.push(0);
    assert_eq!(decode_validate(&[ParamType::String], &input), Err(Error::InvalidData));
}

#[test]
fn strict_mode_accepts_canonical_tails() {
    let empty = words(&[word_of(0x20), word_of(0)]);
    assert_eq!(decode_validate(&[ParamType::String], &empty), Ok(vec![string("")]));
    let encoded = hex("
        0000000000000000000000000000000000000000000000000000000000000020
        0000000000000000000000000000000000000000000000000000000000000040
        0000000000000000000000000000000000000000000000000000000000000080
        0000000000000000000000000000000000000000000000000000000000000009
        6761766f66796f726b0000000000000000000000000000000000000000000000
        0000000000000000000000000000000000000000000000000000000000000009
        6761766f66796f726b0000000000000000000000000000000000000000000000
    ");
    let types = [ParamType::Tuple(vec![ParamType::String, ParamType::String])];
    let expected = vec![Token::Tuple(vec![string("gavofyork"), string("gavofyork")])];
    assert_eq!(decode_validate(&types, &encoded).unwrap(), expected);
    assert_eq!(decode_validate(&types, &encoded[..encoded.len() - 1]), Err(Error::InvalidData));
}

#[test]
fn strict_mode_rejects_nonzero_fixed_bytes_padding() {
    let mut w = [0u8; 32];
    w[0] = 0xab;
    assert_eq!(decode_validate(&[ParamType::FixedBytes(1)], &w), Ok(vec![Token::FixedBytes(vec![0xab])]));
    w[31] = 0x01;
    assert_eq!(decode(&[ParamType::FixedBytes(1)], &w), Ok(vec![Token::FixedBytes(vec![0xab])]));
    assert_eq!(decode_validate(&[ParamType::FixedBytes(1)], &w), Err(Error::InvalidData));
}

#[test]
fn bytes_payload_without_padding() {
    let mut tail = [0u8; 32];
    tail[0] = 0xab;
    tail[31] = 0x01;
    let input = words(&[word_of(0x20), word_of(1), tail]);
    assert_eq!(decode(&[ParamType::Bytes], &input), Ok(vec![Token::Bytes(vec![0xab])]));
    assert_eq!(decode_validate(&[ParamType::Bytes], &input), Err(Error::InvalidData));
    let short = &input[..65];
    assert_eq!(decode(&[ParamType::Bytes], short), Ok(vec![Token::Bytes(vec![0xab])]));
    assert_eq!(decode_validate(&[ParamType::Bytes], short), Err(Error::InvalidData));
    let cut = &input[..64];
    assert_eq!(decode(&[ParamType::Bytes], cut), Err(Error::InvalidData));
}

#[test]
fn offsets_past_the_buffer_are_rejected() {
    let tuple = ParamType::Tuple(vec![ParamType::String]);
    let input = words(&[word_of(0x60), word_of(0), word_of(0)]);
    assert_eq!(decode(&[tuple], &input), Err(Error::InvalidData));
    let fixed = ParamType::FixedArray(Box::new(ParamType::Bytes), 1);
    assert_eq!(decode(&[fixed], &input), Err(Error::InvalidData));
    let mut big = word_of(0x20);
    big[27] = 1;
    let input = words(&[big, word_of(0)]);
    assert_eq!(decode(&[ParamType::Bytes], &input), Err(Error::InvalidData));
}

#[test]
fn static_fixed_array_and_ints_decode_in_place() {
    let input = words(&[word_of(3), word_of(4), [0xffu8; 32]]);
    let types = [ParamType::FixedArray(Box::new(ParamType::Uint(8)), 2), ParamType::Int(256)];
    let expected = vec![
        Token::FixedArray(vec![Token::Uint(word_of(3)), Token::Uint(word_of(4))]),
        Token::Int([0xffu8; 32]),
    ];
    assert_eq!(decode(&types, &input).unwrap(), expected);
    assert_eq!(decode_validate(&types, &input).unwrap(), expected);
}

#[test]
fn dynamic_array_of_addresses() {
    let mut a = [0u8; 32];
    a[12..].copy_from_slice(&[0x55u8; 20]);
    let input = words(&[word_of(0x20), word_of(2), a, a]);
    let types = [ParamType::Array(Box::new(ParamType::Address))];
    let expected = vec![Token::Array(vec![address(0x55), address(0x55)])];
    assert_eq!(decode(&types, &input).unwrap(), expected);
    assert_eq!(decode_validate(&types, &input).unwrap(), expected);
}

#[test]
fn strict_success_agrees_with_lenient_mode() {
    let mut a = [0u8; 32];
    a[12..].copy_from_slice(&[0x66u8; 20]);
    let input = words(&[a, word_of(1)]);
    let types = [ParamType::Address, ParamType::Bool];
    let strict = decode_validate(&types, &input).unwrap();
    assert_eq!(strict, vec![address(0x66), Token::Bool(true)]);
    assert_eq!(decode(&types, &input).unwrap(), strict);
}

#[test]
fn walker_reports_why_it_stopped() {
    assert_eq!(decode_impl(&[ParamType::Address], &[], false), Err(Fault::EmptyInput));
    assert_eq!(decode_impl(&[ParamType::Bool], &word_of(2), false), Err(Fault::Malformed));
    let input = words(&[word_of(0x20), word_of(0)]);
    // the head cursor ends after the one head word, the bytes read at the end
    assert_eq!(decode_impl(&[ParamType::Bytes], &input, true), Ok((vec![Token::Bytes(vec![])], 32)));
    assert_eq!(decode_impl(&[ParamType::Uint(8)], &input, true), Err(Fault::Malformed));
    assert_eq!(decode_impl(&[ParamType::Uint(8)], &input, false), Ok((vec![Token::Uint(word_of(0x20))], 32)));
}
