use tdgame::helper::get_lever_string;

#[test]
fn lever_string_glyphs() {
    assert_eq!(get_lever_string(0), "(_ )");
    assert_eq!(get_lever_string(1), "(0 )");
    assert_eq!(get_lever_string(2), "( _)");
    assert_eq!(get_lever_string(3), "( 0)");
    assert_eq!(get_lever_string(4), "Uh ob");
}
