use codestrain::wire::{encode_strain_input, parse_coord};
use codestrain::StrainInput;

#[test]
fn encoder_produces_the_canonical_json() {
    let input = StrainInput {
        board: vec![((0, 0), Some(true)), ((1, 0), None), ((0, -3), Some(false))],
        allowed: vec![(2, -5)],
    };
    let bytes = encode_strain_input(&input);
    let text = String::from_utf8(bytes).unwrap();
    assert_eq!(
        text,
        "{\"board\":[[[0,0],true],[[1,0],null],[[0,-3],false]],\"allowed\":[[2,-5]]}"
    );
}

#[test]
fn encoder_handles_empty_lists() {
    let input = StrainInput { board: vec![], allowed: vec![] };
    let bytes = encode_strain_input(&input);
    assert_eq!(String::from_utf8(bytes).unwrap(), "{\"board\":[],\"allowed\":[]}");
}

#[test]
fn encoded_input_round_trips_through_serde() {
    let input = StrainInput {
        board: vec![
            ((0, 0), Some(true)),
            ((1, 0), None),
            ((-2147483648, 2147483647), Some(false)),
        ],
        allowed: vec![(1, 0), (-7, 12)],
    };
    let bytes = encode_strain_input(&input);
    let value: serde_json::Value = serde_json::from_slice(&bytes).unwrap();
    let board: Vec<((i32, i32), Option<bool>)> =
        serde_json::from_value(value["board"].clone()).unwrap();
    let allowed: Vec<(i32, i32)> = serde_json::from_value(value["allowed"].clone()).unwrap();
    assert_eq!(board, input.board);
    assert_eq!(allowed, input.allowed);
}

#[test]
fn parser_accepts_serde_encodings() {
    for c in [
        (0, 0),
        (12, -7),
        (-1, 1),
        (2147483647, -2147483648),
        (1000000, -1000000),
    ] {
        let bytes = serde_json::to_vec(&c).unwrap();
        assert_eq!(parse_coord(&bytes), Some(c));
    }
}

#[test]
fn parser_rejects_everything_else() {
    let cases: Vec<&[u8]> = vec![
        b"",
        b"[",
        b"[]",
        b"[1]",
        b"[1,]",
        b"[1,2",
        b"[1,2]x",
        b"x[1,2]",
        b"[1,2,3]",
        b"[ 1,2]",
        b"[1, 2]",
        b"[01,2]",
        b"[1,02]",
        b"[-0,2]",
        b"[+1,2]",
        b"[1.0,2]",
        b"[2147483648,0]",
        b"[0,-2147483649]",
        b"[99999999999999999999,0]",
        b"{\"x\":1}",
        b"null",
    ];
    for c in cases {
        assert_eq!(parse_coord(&c.to_vec()), None, "accepted {:?}", c);
    }
}

#[test]
fn parser_inverts_the_coordinate_encoder() {
    // the allowed list of an encoded input is a sequence of coordinate
    // encodings; cut one out and parse it back
    let input = StrainInput { board: vec![], allowed: vec![(-42, 17)] };
    let bytes = encode_strain_input(&input);
    let text = String::from_utf8(bytes).unwrap();
    let start = text.find("[[").unwrap() + 1;
    let end = text.find("]]").unwrap() + 1;
    let coord = text[start..end].as_bytes().to_vec();
    assert_eq!(parse_coord(&coord), Some((-42, 17)));
}
