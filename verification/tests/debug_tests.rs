use tetris::debug::Logger;

#[test]
fn the_log_keeps_pushed_values_in_order() {
    let mut logger = Logger::default();
    logger.push(3u8);
    logger.push("row");
    assert_eq!(logger.log.len(), 2);
    assert_eq!(logger.log[0].entry, "3");
    assert_eq!(logger.log[1].entry, "\"row\"");
    assert_eq!(logger.text(), "3\n\"row\"\n");
}

#[test]
fn an_empty_log_has_no_text() {
    assert_eq!(Logger::default().text(), "");
}
