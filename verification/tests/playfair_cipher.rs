use playfair::play::{PlayfairMethod, PlayfairState};

#[test]
fn classic_phrase_builds_classic_grid() {
    let p = PlayfairState::init("PLAYFAIREXAMPLE").unwrap();
    assert_eq!(p.board.state[0], ['P', 'L', 'A', 'Y', 'F']);
    assert_eq!(p.board.state[1], ['I', 'R', 'E', 'X', 'M']);
    assert_eq!(p.board.state[2], ['B', 'C', 'D', 'G', 'H']);
    assert_eq!(p.board.state[3], ['K', 'N', 'O', 'Q', 'S']);
    assert_eq!(p.board.state[4], ['T', 'U', 'V', 'W', 'Z']);
}

#[test]
fn classic_message_encodes() {
    let mut p = PlayfairState::init("PLAYFAIREXAMPLE").unwrap();
    p.digest("HIDETHEGOLDINTHETREESTUMP");
    let encoded = p.playfair(PlayfairMethod::ENCODE);
    // The engine pairs doubled letters as they come, without inserting a
    // filler between them, so the doubled EE pair and everything after it
    // differ from renderings that split such pairs.
    assert_eq!(encoded, "BMODZBXDNABEKUDMUIDDKZZRYI");
    assert!(encoded.starts_with("BMODZBXDNABEKUDMUI"));
}

#[test]
fn classic_message_round_trips() {
    let mut p = PlayfairState::init("PLAYFAIREXAMPLE").unwrap();
    p.digest("HIDETHEGOLDINTHETREESTUMP");
    let encoded = p.playfair(PlayfairMethod::ENCODE);
    p.digest(&encoded);
    let decoded = p.playfair(PlayfairMethod::DECODE);
    // The message has odd length, so one filler letter trails the original.
    assert_eq!(decoded, "HIDETHEGOLDINTHETREESTUMPX");
}

#[test]
fn demo_message_round_trips() {
    let mut p = PlayfairState::init("Grunts").unwrap();
    let msg = "Hello, how are you on this fine evening?";
    p.digest(msg);
    let encoded = p.playfair(PlayfairMethod::ENCODE);
    assert_eq!(encoded, "IFVVXOMXFAIVXBPUUKECHKGILGIGPCUV");
    p.digest(&encoded);
    let decoded = p.playfair(PlayfairMethod::DECODE);
    assert_eq!(decoded, "HELLOHOWAREYOUONTHISFINEEVENINGX");
}

#[test]
fn digesting_filters_to_cipher_letters() {
    let mut p = PlayfairState::init("Grunts").unwrap();
    p.digest("Hello, how are you? Just 12 jars... 42!");
    assert!(!p.msg_digested.is_empty());
    for pair in &p.msg_digested {
        for ch in [pair.x, pair.y] {
            assert!(ch.is_ascii_uppercase());
            assert_ne!(ch, 'J');
        }
    }
}

#[test]
fn digesting_pads_odd_messages() {
    let mut p = PlayfairState::init("Grunts").unwrap();
    p.digest("ABC");
    assert_eq!(p.msg_digested.len(), 2);
    assert_eq!(p.msg_digested[1].x, 'C');
    assert_eq!(p.msg_digested[1].y, 'X');
}

#[test]
fn redigesting_discards_the_first_message() {
    let mut p = PlayfairState::init("PLAYFAIREXAMPLE").unwrap();
    p.digest("SOMEEARLIERTEXT");
    p.digest("HIDETHEGOLDINTHETREESTUMP");
    let encoded = p.playfair(PlayfairMethod::ENCODE);

    let mut fresh = PlayfairState::init("PLAYFAIREXAMPLE").unwrap();
    fresh.digest("HIDETHEGOLDINTHETREESTUMP");
    let fresh_encoded = fresh.playfair(PlayfairMethod::ENCODE);
    assert_eq!(encoded, fresh_encoded);
    assert_eq!(encoded, "BMODZBXDNABEKUDMUIDDKZZRYI");
}

#[test]
fn row_wraps_around_the_edges() {
    // The empty phrase yields the plain alphabet grid: row 0 is A B C D E.
    let mut p = PlayfairState::init("").unwrap();
    p.digest("DE");
    assert_eq!(p.playfair(PlayfairMethod::ENCODE), "EA");
    p.digest("EA");
    assert_eq!(p.playfair(PlayfairMethod::DECODE), "DE");
}

#[test]
fn column_wraps_around_the_edges() {
    // On the plain alphabet grid, V and A share column 0; V is in the last
    // row, so encoding moves it back up to A.
    let mut p = PlayfairState::init("").unwrap();
    p.digest("VA");
    assert_eq!(p.playfair(PlayfairMethod::ENCODE), "AF");
    p.digest("AF");
    assert_eq!(p.playfair(PlayfairMethod::DECODE), "VA");
}

#[test]
fn rectangle_rule_is_its_own_inverse() {
    // A and I span a rectangle on the plain alphabet grid; encoding twice
    // returns the original pair.
    let mut p = PlayfairState::init("").unwrap();
    p.digest("AI");
    let once = p.playfair(PlayfairMethod::ENCODE);
    assert_eq!(once, "DF");
    p.digest(&once);
    let twice = p.playfair(PlayfairMethod::ENCODE);
    assert_eq!(twice, "AI");
}

#[test]
fn phrase_outside_the_alphabet_is_rejected() {
    let err = PlayfairState::init("Grunts 123").unwrap_err();
    assert_eq!(err, "Choose another phrase!");
    assert!(PlayfairState::init("jazz").is_err());
    assert!(PlayfairState::init("so, what?").is_err());
}

#[test]
fn grid_covers_the_alphabet_exactly_once() {
    let p = PlayfairState::init("Grunts").unwrap();
    let mut positions = Vec::new();
    for letter in "ABCDEFGHIKLMNOPQRSTUVWXYZ".chars() {
        let pos = p.board.get_position(letter).unwrap();
        assert!(!positions.contains(&pos));
        positions.push(pos);
    }
    assert_eq!(positions.len(), 25);
    assert!(p.board.get_position('J').is_none());
}
