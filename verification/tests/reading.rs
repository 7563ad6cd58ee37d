use the_fall::cell::Cell;
use the_fall::entity::Entity;
use the_fall::error::Error;
use the_fall::input::{input_count, input_ep1, input_ep2, input_first, input_header, lineread, Lines};
use the_fall::node::{IRock, Node, Params};
use the_fall::sqrid::{Qa, Qr};
use the_fall::text::{chars_of, is_word, parse_number, same_chars, split};

fn lines(text: &[&str]) -> Lines {
    Lines::new(text.iter().map(|s| s.to_string()).collect())
}

fn qa(x: u16, y: u16) -> Qa {
    Qa::new(x, y).unwrap()
}

fn ent(x: u16, y: u16, qr: Qr) -> Entity {
    Entity { qa: qa(x, y), qr }
}

fn slot(i: usize) -> IRock {
    IRock::try_from(i).unwrap()
}

fn first(text: &[&str]) -> Result<(Params, Node), Error> {
    let mut params = Params::default();
    let mut node = Node::default();
    input_first(&mut lines(text), &mut params, &mut node)?;
    Ok((params, node))
}

fn turn(text: &[&str]) -> Result<Node, Error> {
    let params = Params::default();
    let mut node = Node::default();
    input_ep2(&mut lines(text), &params, &mut node)?;
    Ok(node)
}

fn word(s: &str) -> Vec<char> {
    s.chars().collect()
}

#[test]
fn lines_are_taken_in_order() {
    let mut it = lines(&["a", "", "c d"]);
    assert_eq!(lineread(&mut it), Ok("a".to_string()));
    assert_eq!(it.next(), Some("".to_string()));
    assert_eq!(lineread(&mut it), Ok("c d".to_string()));
    assert_eq!(lineread(&mut it), Err(Error::LineIteratorEnded));
    assert_eq!(it.next(), None);
    assert_eq!(lineread(&mut lines(&[])), Err(Error::LineIteratorEnded));
}

#[test]
fn a_line_is_cut_at_every_space() {
    assert_eq!(split(&word("a b")), vec![word("a"), word("b")]);
    assert_eq!(split(&word("12 3 TOP")), vec![word("12"), word("3"), word("TOP")]);
    assert_eq!(split(&word("")), vec![word("")]);
    assert_eq!(split(&word("abc")), vec![word("abc")]);
    assert_eq!(split(&word("a  b")), vec![word("a"), word(""), word("b")]);
    assert_eq!(split(&word(" a")), vec![word(""), word("a")]);
    assert_eq!(split(&word("a ")), vec![word("a"), word("")]);
    assert_eq!(split(&word(" ")), vec![word(""), word("")]);
    assert_eq!(split(&word("a\tb")), vec![word("a\tb")]);
}

#[test]
fn characters_and_words() {
    assert_eq!(chars_of("TOP"), vec!['T', 'O', 'P']);
    assert_eq!(chars_of(""), Vec::<char>::new());
    assert_eq!(chars_of("\u{2503} "), vec!['\u{2503}', ' ']);
    assert!(is_word(&word("LEFT"), "LEFT"));
    assert!(!is_word(&word("LEF"), "LEFT"));
    assert!(!is_word(&word("LEFT "), "LEFT"));
    assert!(!is_word(&word("left"), "LEFT"));
    assert!(same_chars(&word(""), &word("")));
    assert!(!same_chars(&word("ab"), &word("ac")));
}

#[test]
fn numbers_are_read_in_base_ten() {
    assert_eq!(parse_number(&word("0"), 65535), Some(0));
    assert_eq!(parse_number(&word("13"), 65535), Some(13));
    assert_eq!(parse_number(&word("007"), 65535), Some(7));
    assert_eq!(parse_number(&word("+5"), 65535), Some(5));
    assert_eq!(parse_number(&word("65535"), 65535), Some(65535));
    assert_eq!(parse_number(&word("0000000000000000000000000000000000012"), 65535), Some(12));
    assert_eq!(parse_number(&word("20"), 20), Some(20));
}

#[test]
fn what_is_no_number_is_refused() {
    for bad in ["", "+", "-", "-1", "-0", "1 ", " 1", "1a", "a", "++1", "+-1", "1+", "1.0", "0x1", "\u{663}"] {
        assert_eq!(parse_number(&word(bad), 65535), None);
    }
}

#[test]
fn numbers_that_are_too_large_are_refused() {
    assert_eq!(parse_number(&word("65536"), 65535), None);
    assert_eq!(parse_number(&word("70000"), 65535), None);
    assert_eq!(parse_number(&word("655350"), 65535), None);
    assert_eq!(parse_number(&word("21"), 20), None);
    assert_eq!(parse_number(&word("99999999999999999999999999999999999999999999"), usize::MAX), None);
    assert_eq!(parse_number(&word(&usize::MAX.to_string()), usize::MAX), Some(usize::MAX));
    assert_eq!(parse_number(&word("18446744073709551616"), usize::MAX), None);
}

#[test]
fn an_entity_is_read() {
    assert_eq!(Entity::from_str("0 0 TOP"), Ok(ent(0, 0, Qr::S)));
    assert_eq!(Entity::from_str("1 2 LEFT"), Ok(ent(1, 2, Qr::E)));
    assert_eq!(Entity::from_str("19 19 RIGHT"), Ok(ent(19, 19, Qr::W)));
    assert_eq!(Entity::from_str("+1 02 TOP"), Ok(ent(1, 2, Qr::S)));
    assert_eq!(Entity::from_str("3 4 TOP and more"), Ok(ent(3, 4, Qr::S)));
}

#[test]
fn an_unknown_facing_is_invalid_input() {
    assert_eq!(Entity::from_str("0 0 DOWN"), Err(Error::InvalidInput));
    assert_eq!(Entity::from_str("0 0 top"), Err(Error::InvalidInput));
    assert_eq!(Entity::from_str("0 0 BOTTOM"), Err(Error::InvalidInput));
    assert_eq!(Entity::from_str("0 0 "), Err(Error::InvalidInput));
    assert_eq!(Entity::from_str("0 0  TOP"), Err(Error::InvalidInput));
}

#[test]
fn a_missing_field_is_invalid_input() {
    assert_eq!(Entity::from_str("0 0"), Err(Error::InvalidInput));
    assert_eq!(Entity::from_str("0"), Err(Error::InvalidInput));
}

#[test]
fn a_coordinate_that_is_no_number_is_a_parse_error() {
    assert_eq!(Entity::from_str("x 0 TOP"), Err(Error::ParseInt));
    assert_eq!(Entity::from_str("0 y TOP"), Err(Error::ParseInt));
    assert_eq!(Entity::from_str(""), Err(Error::ParseInt));
    assert_eq!(Entity::from_str("-1 0 TOP"), Err(Error::ParseInt));
    assert_eq!(Entity::from_str("0 70000 TOP"), Err(Error::ParseInt));
    assert_eq!(Entity::from_str(" 0 0 TOP"), Err(Error::ParseInt));
    assert_eq!(Entity::from_str("x"), Err(Error::ParseInt));
    assert_eq!(Entity::from_str("30 y DOWN"), Err(Error::ParseInt));
}

#[test]
fn a_coordinate_outside_the_grid_is_out_of_range() {
    assert_eq!(Entity::from_str("20 0 TOP"), Err(Error::OutOfRange));
    assert_eq!(Entity::from_str("0 20 TOP"), Err(Error::OutOfRange));
    assert_eq!(Entity::from_str("65535 65535 TOP"), Err(Error::OutOfRange));
    assert_eq!(Entity::from_str("20 0 DOWN"), Err(Error::OutOfRange));
    assert_eq!(Entity::from_str("20 0"), Err(Error::OutOfRange));
}

#[test]
fn the_header_gives_the_dimensions() {
    assert_eq!(input_header("13 10"), Ok((13, 10)));
    assert_eq!(input_header("1 1"), Ok((1, 1)));
    assert_eq!(input_header("20 20"), Ok((20, 20)));
    assert_eq!(input_header("3 4 5"), Ok((3, 4)));
}

#[test]
fn a_bad_header_is_refused() {
    assert_eq!(input_header(""), Err(Error::ParseInt));
    assert_eq!(input_header("a 3"), Err(Error::ParseInt));
    assert_eq!(input_header("3 b"), Err(Error::ParseInt));
    assert_eq!(input_header("3  4"), Err(Error::ParseInt));
    assert_eq!(input_header("3"), Err(Error::InvalidInput));
    assert_eq!(input_header("0 3"), Err(Error::OutOfRange));
    assert_eq!(input_header("3 0"), Err(Error::OutOfRange));
    assert_eq!(input_header("21 3"), Err(Error::OutOfRange));
    assert_eq!(input_header("3 21"), Err(Error::OutOfRange));
}

#[test]
fn a_puzzle_is_read() {
    let (params, node) = first(&["3 2", "3 -12 8", "11 2 -10", "2"]).unwrap();
    assert_eq!(params.width, 3);
    assert_eq!(params.height, 2);
    assert_eq!(params.exit, qa(2, 1));
    let cells = [
        (0, 0, Cell::Type3),
        (1, 0, Cell::Type12),
        (2, 0, Cell::Type8),
        (0, 1, Cell::Type11),
        (1, 1, Cell::Type2),
        (2, 1, Cell::Type10),
        (3, 0, Cell::Type0),
        (0, 2, Cell::Type0),
    ];
    for (x, y, cell) in cells {
        assert_eq!(params.grid0.get(&qa(x, y)), cell);
        assert_eq!(node.grid.get(&qa(x, y)), cell);
        assert_eq!(params.frozen.get(&qa(x, y)), (x, y) == (1, 0) || (x, y) == (2, 1));
    }
    assert_eq!(node.grid, params.grid0);
    assert_eq!(node.indy, Entity::default());
}

#[test]
fn reading_a_puzzle_takes_its_lines_only() {
    let mut it = lines(&["1 2", "3", "3", "0", "0 0 TOP", "0"]);
    let mut params = Params::default();
    let mut node = Node::default();
    input_first(&mut it, &mut params, &mut node).unwrap();
    assert_eq!(lineread(&mut it), Ok("0 0 TOP".to_string()));
    assert_eq!(lineread(&mut it), Ok("0".to_string()));
    assert_eq!(lineread(&mut it), Err(Error::LineIteratorEnded));
}

#[test]
fn a_puzzle_is_put_on_what_was_there() {
    let mut params = Params::default();
    let mut node = Node::default();
    params.grid0.set(&qa(5, 5), Cell::Type9);
    params.grid0.set(&qa(0, 0), Cell::Type9);
    params.frozen.set_t(&qa(7, 7));
    node.indy = ent(3, 3, Qr::W);
    node.rock.set(slot(2), Some(ent(1, 1, Qr::S)));
    input_first(&mut lines(&["2 1", "3", "1"]), &mut params, &mut node).unwrap();
    assert_eq!(params.grid0.get(&qa(0, 0)), Cell::Type3);
    assert_eq!(params.grid0.get(&qa(5, 5)), Cell::Type9);
    assert!(params.frozen.get(&qa(7, 7)));
    assert_eq!(node.grid, params.grid0);
    assert_eq!(node.indy, ent(3, 3, Qr::W));
    assert_eq!(node.rock.get(slot(2)), Some(ent(1, 1, Qr::S)));
    assert_eq!(params.exit, qa(1, 0));
}

#[test]
fn a_truncated_puzzle_ends_the_lines() {
    assert_eq!(first(&[]).err(), Some(Error::LineIteratorEnded));
    assert_eq!(first(&["1 2"]).err(), Some(Error::LineIteratorEnded));
    assert_eq!(first(&["1 2", "3"]).err(), Some(Error::LineIteratorEnded));
    assert_eq!(first(&["1 2", "3", "3"]).err(), Some(Error::LineIteratorEnded));
    assert!(first(&["1 2", "3", "3", "0"]).is_ok());
}

#[test]
fn a_bad_puzzle_is_refused() {
    assert_eq!(first(&["x 2", "3", "3", "0"]).err(), Some(Error::ParseInt));
    assert_eq!(first(&["1", "3", "3", "0"]).err(), Some(Error::InvalidInput));
    assert_eq!(first(&["1 21", "3", "3", "0"]).err(), Some(Error::OutOfRange));
    assert_eq!(first(&["1 2", "14", "3", "0"]).err(), Some(Error::CellParseError));
    assert_eq!(first(&["1 2", "3", "3 x", "0"]).err(), Some(Error::CellParseError));
    assert_eq!(first(&["1 2", "3", "", "0"]).err(), Some(Error::CellParseError));
    assert_eq!(first(&["1 2", "3", "3  3", "0"]).err(), Some(Error::CellParseError));
    assert_eq!(first(&["1 2", "3", "3", "x"]).err(), Some(Error::ParseInt));
    assert_eq!(first(&["1 2", "3", "3", "0 "]).err(), Some(Error::ParseInt));
    assert_eq!(first(&["1 2", "3", "3", "20"]).err(), Some(Error::OutOfRange));
    assert_eq!(first(&["1 2", "x"]).err(), Some(Error::CellParseError));
}

#[test]
fn a_row_that_is_too_long_is_out_of_range() {
    let twenty = vec!["3"; 20].join(" ");
    let more = vec!["3"; 21].join(" ");
    assert!(first(&["20 1", &twenty, "19"]).is_ok());
    assert_eq!(first(&["20 1", &more, "19"]).err(), Some(Error::OutOfRange));
    let bad_end = format!("{} x", twenty);
    assert_eq!(first(&["20 1", &bad_end, "19"]).err(), Some(Error::OutOfRange));
    let bad_start = format!("x {}", twenty);
    assert_eq!(first(&["20 1", &bad_start, "19"]).err(), Some(Error::CellParseError));
}

#[test]
fn the_primary_entity_of_a_turn_is_read() {
    let params = Params::default();
    let mut node = Node::default();
    node.rock.set(slot(1), Some(ent(1, 1, Qr::S)));
    let mut it = lines(&["4 5 LEFT", "rest"]);
    assert_eq!(input_ep1(&mut it, &params, &mut node), Ok(()));
    assert_eq!(node.indy, ent(4, 5, Qr::E));
    assert_eq!(node.rock.get(slot(1)), Some(ent(1, 1, Qr::S)));
    assert_eq!(lineread(&mut it), Ok("rest".to_string()));
}

#[test]
fn a_bad_turn_leaves_the_primary_entity() {
    let params = Params::default();
    let mut node = Node::default();
    node.indy = ent(4, 5, Qr::E);
    assert_eq!(input_ep1(&mut lines(&[]), &params, &mut node), Err(Error::LineIteratorEnded));
    assert_eq!(input_ep1(&mut lines(&["0 0 UP"]), &params, &mut node), Err(Error::InvalidInput));
    assert_eq!(input_ep1(&mut lines(&["0 x TOP"]), &params, &mut node), Err(Error::ParseInt));
    assert_eq!(input_ep1(&mut lines(&["0 20 TOP"]), &params, &mut node), Err(Error::OutOfRange));
    assert_eq!(node.indy, ent(4, 5, Qr::E));
}

#[test]
fn the_obstacles_of_a_turn_are_read() {
    let node = turn(&["0 0 TOP", "2", "3 4 RIGHT", "5 6 LEFT"]).unwrap();
    assert_eq!(node.indy, ent(0, 0, Qr::S));
    assert_eq!(node.rock.get(slot(0)), Some(ent(3, 4, Qr::W)));
    assert_eq!(node.rock.get(slot(1)), Some(ent(5, 6, Qr::E)));
    for i in 2..10 {
        assert_eq!(node.rock.get(slot(i)), None);
    }
}

#[test]
fn a_turn_without_obstacles_clears_the_slots() {
    let params = Params::default();
    let mut node = Node::default();
    node.rock.set(slot(0), Some(ent(1, 1, Qr::S)));
    node.rock.set(slot(9), Some(ent(1, 1, Qr::S)));
    node.grid.set(&qa(2, 2), Cell::Type5);
    assert_eq!(input_ep2(&mut lines(&["1 0 TOP", "0"]), &params, &mut node), Ok(()));
    for i in 0..10 {
        assert_eq!(node.rock.get(slot(i)), None);
    }
    assert_eq!(node.indy, ent(1, 0, Qr::S));
    assert_eq!(node.grid.get(&qa(2, 2)), Cell::Type5);
}

#[test]
fn no_more_obstacles_are_read_than_there_are_slots() {
    let mut text = vec!["0 0 TOP".to_string(), "12".to_string()];
    for i in 0..12 {
        text.push(format!("{} 1 TOP", i));
    }
    let mut it = Lines::new(text);
    let params = Params::default();
    let mut node = Node::default();
    assert_eq!(input_ep2(&mut it, &params, &mut node), Ok(()));
    for i in 0..10 {
        assert_eq!(node.rock.get(slot(i)), Some(ent(i as u16, 1, Qr::S)));
    }
    assert_eq!(lineread(&mut it), Ok("10 1 TOP".to_string()));
}

#[test]
fn a_bad_turn_is_refused() {
    assert_eq!(turn(&[]).err(), Some(Error::LineIteratorEnded));
    assert_eq!(turn(&["0 0 TOP"]).err(), Some(Error::LineIteratorEnded));
    assert_eq!(turn(&["0 0 TOP", "x"]).err(), Some(Error::ParseInt));
    assert_eq!(turn(&["0 0 TOP", "-1"]).err(), Some(Error::ParseInt));
    assert_eq!(turn(&["0 0 TOP", "1 "]).err(), Some(Error::ParseInt));
    assert_eq!(turn(&["0 0 TOP", "1"]).err(), Some(Error::LineIteratorEnded));
    assert_eq!(turn(&["0 0 TOP", "2", "1 1 TOP"]).err(), Some(Error::LineIteratorEnded));
    assert_eq!(turn(&["0 0 TOP", "2", "1 1 UP", "x"]).err(), Some(Error::InvalidInput));
    assert_eq!(turn(&["0 0 TOP", "2", "1 1 TOP", "x"]).err(), Some(Error::ParseInt));
    assert_eq!(turn(&["0 0 TOP", "1", "20 1 TOP"]).err(), Some(Error::OutOfRange));
    assert_eq!(turn(&["0 0 UP", "x"]).err(), Some(Error::InvalidInput));
}

#[test]
fn the_number_of_obstacles_is_read() {
    assert_eq!(input_count("0"), Ok(0));
    assert_eq!(input_count("7"), Ok(7));
    assert_eq!(input_count("+10"), Ok(10));
    assert_eq!(input_count(""), Err(Error::ParseInt));
    assert_eq!(input_count("7 "), Err(Error::ParseInt));
    assert_eq!(input_count("seven"), Err(Error::ParseInt));
}

#[test]
fn a_refused_puzzle_leaves_everything_but_the_lines_taken() {
    let mut it = lines(&["2 2", "3 3", "3 x", "0", "after"]);
    let mut params = Params::default();
    let mut node = Node::default();
    params.grid0.set(&qa(0, 0), Cell::Type9);
    node.grid.set(&qa(1, 1), Cell::Type5);
    assert_eq!(input_first(&mut it, &mut params, &mut node), Err(Error::CellParseError));
    assert_eq!(params.width, 0);
    assert_eq!(params.height, 0);
    assert_eq!(params.grid0.get(&qa(0, 0)), Cell::Type9);
    assert_eq!(params.grid0.get(&qa(1, 0)), Cell::Type0);
    assert_eq!(node.grid.get(&qa(1, 1)), Cell::Type5);
    assert_eq!(node.grid.get(&qa(0, 0)), Cell::Type0);
    assert_eq!(lineread(&mut it), Ok("0".to_string()));
    let mut it = lines(&["x", "next"]);
    assert_eq!(input_first(&mut it, &mut params, &mut node), Err(Error::ParseInt));
    assert_eq!(lineread(&mut it), Ok("next".to_string()));
    let mut it = lines(&["1 1", "3", "20", "next"]);
    assert_eq!(input_first(&mut it, &mut params, &mut node), Err(Error::OutOfRange));
    assert_eq!(lineread(&mut it), Ok("next".to_string()));
}

#[test]
fn a_refused_turn_leaves_everything_but_the_lines_taken() {
    let params = Params::default();
    let mut node = Node::default();
    node.indy = ent(4, 5, Qr::E);
    node.rock.set(slot(0), Some(ent(1, 1, Qr::S)));
    let mut it = lines(&["0 0 TOP", "3", "1 2 TOP", "1 2 UP", "1 3 TOP", "next"]);
    assert_eq!(input_ep2(&mut it, &params, &mut node), Err(Error::InvalidInput));
    assert_eq!(node.indy, ent(4, 5, Qr::E));
    assert_eq!(node.rock.get(slot(0)), Some(ent(1, 1, Qr::S)));
    assert_eq!(node.rock.get(slot(1)), None);
    assert_eq!(lineread(&mut it), Ok("1 3 TOP".to_string()));
    let mut it = lines(&["0 0 TOP", "many", "next"]);
    assert_eq!(input_ep2(&mut it, &params, &mut node), Err(Error::ParseInt));
    assert_eq!(lineread(&mut it), Ok("next".to_string()));
    let mut it = lines(&["0 0 UP", "next"]);
    assert_eq!(input_ep1(&mut it, &params, &mut node), Err(Error::InvalidInput));
    assert_eq!(lineread(&mut it), Ok("next".to_string()));
    assert_eq!(node.indy, ent(4, 5, Qr::E));
}

#[test]
fn a_turn_takes_its_lines_only() {
    let params = Params::default();
    let mut node = Node::default();
    let mut it = lines(&["0 0 TOP", "2", "1 2 TOP", "1 3 TOP", "next"]);
    assert_eq!(input_ep2(&mut it, &params, &mut node), Ok(()));
    assert_eq!(lineread(&mut it), Ok("next".to_string()));
}
