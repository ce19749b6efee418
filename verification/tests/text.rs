use novel_life::lcell::LCell;
use novel_life::text::ParseError;
use novel_life::universe::{tick, Universe};

#[test]
fn cells_read_from_characters() {
    assert_eq!(LCell::from('#'), LCell::Alive);
    assert_eq!(LCell::from('.'), LCell::Dead);
    assert_eq!(LCell::try_from_char('#'), Some(LCell::Alive));
    assert_eq!(LCell::try_from_char('.'), Some(LCell::Dead));
    assert_eq!(LCell::try_from_char(' '), None);
    assert_eq!(LCell::try_from_char('x'), None);
    assert_eq!(LCell::try_from_char('\n'), None);
}

#[test]
fn cells_show_as_glyphs() {
    assert_eq!(LCell::Alive.glyph(), '■');
    assert_eq!(LCell::Dead.glyph(), ' ');
    assert_eq!(LCell::Alive.to_string(), "■");
    assert_eq!(LCell::Dead.to_string(), " ");
    assert_eq!(LCell::try_from_glyph('■'), Some(LCell::Alive));
    assert_eq!(LCell::try_from_glyph(' '), Some(LCell::Dead));
    assert_eq!(LCell::try_from_glyph('#'), None);
    assert_eq!(LCell::try_from_glyph('.'), None);
}

#[test]
fn cells_toggle() {
    assert_eq!(LCell::Alive.toggled(), LCell::Dead);
    assert_eq!(LCell::Dead.toggled(), LCell::Alive);
    assert_eq!(LCell::Dead.toggled().toggled(), LCell::Dead);
    assert!(LCell::Alive.is_alive());
    assert!(!LCell::Dead.is_alive());
}

#[test]
fn plain_text_parses() {
    let u = Universe::parse("#.\n.#").unwrap();
    assert_eq!(u.size(), 2);
    assert_eq!(u.get(0, 0), LCell::Alive);
    assert_eq!(u.get(0, 1), LCell::Dead);
    assert_eq!(u.get(1, 0), LCell::Dead);
    assert_eq!(u.get(1, 1), LCell::Alive);
    assert_eq!(Universe::parse("#").unwrap().size(), 1);
}

#[test]
fn newline_at_the_end_is_optional() {
    assert_eq!(Universe::parse("#.\n.#\n"), Universe::parse("#.\n.#"));
    assert_eq!(Universe::parse("#.\n.#\n").unwrap(), Universe::from("#.\n.#"));
}

#[test]
fn unknown_character_is_refused() {
    assert_eq!(Universe::parse("#x\n.#"), Err(ParseError::UnknownCell));
    assert_eq!(Universe::parse("# \n.#"), Err(ParseError::UnknownCell));
    assert_eq!(Universe::parse("#.\r\n.#"), Err(ParseError::UnknownCell));
    assert_eq!(Universe::parse("■ \n ■"), Err(ParseError::UnknownCell));
    // reported before the shape
    assert_eq!(Universe::parse("#.\n.#\n.?."), Err(ParseError::UnknownCell));
}

#[test]
fn text_without_rows_is_refused() {
    assert_eq!(Universe::parse(""), Err(ParseError::Empty));
}

#[test]
fn rows_that_make_no_square_are_refused() {
    assert_eq!(Universe::parse("#.\n.#\n.."), Err(ParseError::NotSquare));
    assert_eq!(Universe::parse("#.#\n.#."), Err(ParseError::NotSquare));
    assert_eq!(Universe::parse("#.\n#"), Err(ParseError::NotSquare));
    assert_eq!(Universe::parse("#.\n\n"), Err(ParseError::NotSquare));
    assert_eq!(Universe::parse("\n"), Err(ParseError::NotSquare));
    assert_eq!(Universe::parse("\n\n"), Err(ParseError::NotSquare));
    assert_eq!(Universe::parse("#.\n.#\n\n"), Err(ParseError::NotSquare));
}

#[test]
fn frame_is_rendered_exactly() {
    let u = Universe::from("#.\n.#");
    assert_eq!(u.render(), "┌──┐\n│■ │\n│ ■│\n└──┘\n");
    assert_eq!(u.to_string(), u.render());
    assert_eq!(Universe::new(1).render(), "┌─┐\n│ │\n└─┘\n");
    assert_eq!(
        Universe::from("###\n...\n.#.").render(),
        "┌───┐\n│■■■│\n│   │\n│ ■ │\n└───┘\n"
    );
}

#[test]
fn frame_has_fixed_width() {
    let u = Universe::from(".....\n.....\n.###.\n.....\n.....");
    let text = u.render();
    let lines: Vec<&str> = text.lines().collect();
    assert_eq!(lines.len(), 7);
    for line in &lines {
        assert_eq!(line.chars().count(), 7);
    }
    assert!(text.ends_with('\n'));
    for r in 0..5 {
        for c in 0..5 {
            assert_eq!(u.frame_char_at(r + 1, c + 1), u.get(r, c).glyph());
        }
    }
    assert_eq!(u.frame_char_at(0, 0), '┌');
    assert_eq!(u.frame_char_at(0, 3), '─');
    assert_eq!(u.frame_char_at(0, 6), '┐');
    assert_eq!(u.frame_char_at(0, 7), '\n');
    assert_eq!(u.frame_char_at(2, 0), '│');
    assert_eq!(u.frame_char_at(2, 6), '│');
    assert_eq!(u.frame_char_at(6, 0), '└');
    assert_eq!(u.frame_char_at(6, 2), '─');
    assert_eq!(u.frame_char_at(6, 6), '┘');
    assert_eq!(u.frame_char_at(6, 7), '\n');
}

#[test]
fn frame_round_trips() {
    let u = Universe::from(
        "......\n..#...\n...#..\n.###..\n......\n......",
    );
    let mut current = u;
    for _ in 0..5 {
        let text = current.render();
        let back = Universe::parse_frame(&text).unwrap();
        assert_eq!(back, current);
        assert_eq!(back.render(), text);
        current = tick(&current);
    }
}

#[test]
fn frame_text_round_trips() {
    let text = "┌───┐\n│■ ■│\n│ ■ │\n│■  │\n└───┘\n";
    let u = Universe::parse_frame(text).unwrap();
    assert_eq!(u, Universe::from("#.#\n.#.\n#.."));
    assert_eq!(u.render(), text);
}

#[test]
fn text_that_is_no_frame_is_refused() {
    let bad = [
        "",
        "\n",
        "#.\n.#",
        "┌──┐",
        "┌┐\n└┘\n",
        "┌──┐\n│■ │\n│ ■│\n└──┘",
        "┌──┐\n│■ │\n│ ■│\n└──┘\n\n",
        "┌──┐\n│■ │\n│ ■│\n",
        "┌──┐\n│■ │\n└──┘\n",
        "┌──┐\n│■ │\n│ #│\n└──┘\n",
        "┌──┐\n│■ │\n│ .│\n└──┘\n",
        "┌──┐\n│■ │\n│ ■ \n└──┘\n",
        "┌──┐\n│■ │\n ■ │\n└──┘\n",
        "┌──┐\n│■ │\n│ ■│\n└──┐\n",
        "┌──┐\n│■ │\n│ ■│\n┌──┘\n",
        "┌─ ┐\n│■ │\n│ ■│\n└──┘\n",
        "└──┘\n│■ │\n│ ■│\n└──┘\n",
        "┌──┐\n│■ │\n│ ■│\n└─■┘\n",
        "┌──┐\n│■  │\n│ ■│\n└──┘\n",
        "┌──┐\r\n│■ │\r\n│ ■│\r\n└──┘\r\n",
        "+--+\n|# |\n| #|\n+--+\n",
    ];
    for text in bad {
        assert_eq!(Universe::parse_frame(text), Err(ParseError::BadFrame), "{:?}", text);
    }
}
