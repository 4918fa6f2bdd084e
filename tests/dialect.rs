use cubestore_exec::dialect::MySqlDialectWithBackTicks;

#[test]
fn identifier_characters() {
    let d = MySqlDialectWithBackTicks {};
    assert!(d.is_delimited_identifier_start('`'));
    assert!(d.is_delimited_identifier_start('"'));
    assert!(!d.is_delimited_identifier_start('\''));
    assert!(d.is_identifier_start('a'));
    assert!(d.is_identifier_start('Z'));
    assert!(d.is_identifier_start('_'));
    assert!(d.is_identifier_start('$'));
    assert!(d.is_identifier_start('é'));
    assert!(d.is_identifier_start('\u{1F600}'));
    assert!(!d.is_identifier_start('1'));
    assert!(!d.is_identifier_start('-'));
    assert!(d.is_identifier_part('1'));
    assert!(d.is_identifier_part('q'));
    assert!(!d.is_identifier_part(' '));
}
