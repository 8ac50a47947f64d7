use gauss_jordan::app::{
    cell_value, variable_name, App, CurrentlyEditing, InvalidSize, Key, Outcome,
};
use gauss_jordan::elimination::SolveError;
use gauss_jordan::rational::Rational;

fn num(n: i64, d: i64) -> Rational {
    Rational::new(n, d).unwrap()
}

fn type_text(app: &mut App, text: &str) {
    for c in text.chars() {
        assert!(app.push_char(c), "{:?} was turned away", c);
    }
}

fn editing(order: &str) -> App {
    let mut app = App::new();
    type_text(&mut app, order);
    app.toggle_editing(true).unwrap();
    app
}

fn cells(app: &App) -> Vec<String> {
    (0..app.cell_total()).map(|i| app.cell(i).to_string()).collect()
}

fn fill(app: &mut App, texts: &[&str]) {
    for (i, text) in texts.iter().enumerate() {
        type_text(app, text);
        if i + 1 < texts.len() {
            app.toggle_editing(true).unwrap();
        }
    }
}

fn at(x: i8, y: i8) -> CurrentlyEditing {
    CurrentlyEditing::Equation { x, y }
}

#[test]
fn new_starts_on_an_empty_size_buffer() {
    let app = App::new();
    assert_eq!(app.mat_size(), "");
    assert_eq!(cells(&app), vec![String::new()]);
    assert_eq!(app.currently_editing(), CurrentlyEditing::EquationSize);
    assert_eq!(app.order(), None);
    assert_eq!(app.cursor_index(), None);
}

#[test]
fn commit_sizes_the_cell_store() {
    let app = editing("3");
    assert_eq!(app.currently_editing(), at(0, 0));
    assert_eq!(app.cell_total(), 12);
    assert!(cells(&app).iter().all(|c| c.is_empty()));
    assert_eq!(app.order(), Some(3));
    assert_eq!(app.cursor_index(), Some(0));
}

#[test]
fn commit_of_an_invalid_size_changes_nothing() {
    for text in ["", "0", "128", "999"] {
        let mut app = App::new();
        type_text(&mut app, text);
        assert_eq!(app.toggle_editing(true), Err(InvalidSize));
        assert_eq!(app.currently_editing(), CurrentlyEditing::EquationSize);
        assert_eq!(app.mat_size(), text);
        assert_eq!(cells(&app), vec![String::new()]);
    }
}

#[test]
fn going_back_in_the_size_buffer_changes_nothing() {
    let mut app = App::new();
    type_text(&mut app, "2");
    assert_eq!(app.toggle_editing(false), Ok(()));
    assert_eq!(app.currently_editing(), CurrentlyEditing::EquationSize);
    assert_eq!(app.mat_size(), "2");
    app.pop_char();
    assert_eq!(app.toggle_editing(false), Ok(()));
    assert_eq!(app.mat_size(), "");
    assert_eq!(cells(&app), vec![String::new()]);
}

#[test]
fn forward_visits_the_cells_row_by_row() {
    let mut app = editing("2");
    let expected = [at(1, 0), at(2, 0), at(0, 1), at(1, 1), at(2, 1), at(0, 0)];
    for e in expected {
        app.toggle_editing(true).unwrap();
        assert_eq!(app.currently_editing(), e);
    }
}

#[test]
fn forward_cycle_returns_to_the_first_cell() {
    for n in 1..=12usize {
        let mut app = editing(&n.to_string());
        for step in 1..=(n + 1) * n {
            app.toggle_editing(true).unwrap();
            assert_eq!(app.currently_editing() == at(0, 0), step == (n + 1) * n);
            assert_eq!(app.cursor_index(), Some(step % ((n + 1) * n)));
        }
    }
}

#[test]
fn forward_cycle_of_the_largest_order() {
    let mut app = editing("127");
    assert_eq!(app.cell_total(), 127 * 128);
    for _ in 0..127 * 128 - 1 {
        app.toggle_editing(true).unwrap();
    }
    assert_eq!(app.currently_editing(), at(127, 126));
    app.toggle_editing(true).unwrap();
    assert_eq!(app.currently_editing(), at(0, 0));
}

#[test]
fn backward_from_the_first_cell_returns_to_the_size_buffer() {
    let mut app = editing("3");
    app.toggle_editing(false).unwrap();
    assert_eq!(app.currently_editing(), CurrentlyEditing::EquationSize);
    assert_eq!(app.cell_total(), 12);
    assert_eq!(app.mat_size(), "3");
}

#[test]
fn backward_steps_through_the_rows() {
    let mut app = editing("2");
    for _ in 0..4 {
        app.toggle_editing(true).unwrap();
    }
    assert_eq!(app.currently_editing(), at(1, 1));
    let expected = [at(0, 1), at(2, 0), at(1, 0), at(0, 0), CurrentlyEditing::EquationSize];
    for e in expected {
        app.toggle_editing(false).unwrap();
        assert_eq!(app.currently_editing(), e);
    }
}

#[test]
fn resize_clears_every_cell() {
    let mut app = editing("2");
    fill(&mut app, &["1", "2", "3", "4", "5", "6"]);
    assert_eq!(cells(&app), vec!["1", "2", "3", "4", "5", "6"]);
    for _ in 0..5 {
        app.toggle_editing(false).unwrap();
    }
    app.toggle_editing(false).unwrap();
    assert_eq!(app.currently_editing(), CurrentlyEditing::EquationSize);
    app.pop_char();
    type_text(&mut app, "3");
    app.toggle_editing(true).unwrap();
    assert_eq!(app.currently_editing(), at(0, 0));
    assert_eq!(cells(&app), vec![String::new(); 12]);
    app.toggle_editing(false).unwrap();
    app.pop_char();
    type_text(&mut app, "1");
    app.toggle_editing(true).unwrap();
    assert_eq!(cells(&app), vec![String::new(); 2]);
}

#[test]
fn commit_of_the_same_order_keeps_the_cells() {
    let mut app = editing("2");
    fill(&mut app, &["1", "2", "3"]);
    app.toggle_editing(false).unwrap();
    app.toggle_editing(false).unwrap();
    app.toggle_editing(false).unwrap();
    assert_eq!(app.currently_editing(), CurrentlyEditing::EquationSize);
    app.pop_char();
    type_text(&mut app, "02");
    app.toggle_editing(true).unwrap();
    assert_eq!(cells(&app), vec!["1", "2", "3", "", "", ""]);
}

#[test]
fn size_buffer_takes_digits_only() {
    let mut app = App::new();
    assert!(!app.push_char('-'));
    assert!(!app.push_char('.'));
    assert!(!app.push_char('a'));
    assert!(!app.push_char(' '));
    assert!(!app.push_char('+'));
    assert_eq!(app.mat_size(), "");
    for c in "0123456789".chars() {
        assert!(app.push_char(c));
    }
    assert_eq!(app.mat_size(), "0123456789");
    assert!(!app.push_char('-'));
    assert_eq!(app.mat_size(), "0123456789");
}

#[test]
fn cells_take_digits_point_and_minus() {
    let mut app = editing("1");
    for c in "-0123456789.".chars() {
        assert!(app.push_char(c));
    }
    assert!(!app.push_char('a'));
    assert!(!app.push_char('+'));
    assert!(!app.push_char('e'));
    assert_eq!(cells(&app), vec!["-0123456789.", ""]);
    assert_eq!(app.mat_size(), "1");
}

#[test]
fn push_goes_to_the_cell_under_the_cursor() {
    let mut app = editing("2");
    app.toggle_editing(true).unwrap();
    app.toggle_editing(true).unwrap();
    app.toggle_editing(true).unwrap();
    app.toggle_editing(true).unwrap();
    assert_eq!(app.currently_editing(), at(1, 1));
    assert_eq!(app.cursor_index(), Some(4));
    type_text(&mut app, "-4.5");
    assert_eq!(cells(&app), vec!["", "", "", "", "-4.5", ""]);
}

#[test]
fn pop_deletes_the_last_character() {
    let mut app = App::new();
    app.pop_char();
    assert_eq!(app.mat_size(), "");
    type_text(&mut app, "12");
    app.pop_char();
    assert_eq!(app.mat_size(), "1");
    app.toggle_editing(true).unwrap();
    app.toggle_editing(true).unwrap();
    type_text(&mut app, "3.5");
    app.pop_char();
    assert_eq!(cells(&app), vec!["", "3."]);
    app.pop_char();
    app.pop_char();
    app.pop_char();
    assert_eq!(cells(&app), vec!["", ""]);
    assert_eq!(app.mat_size(), "1");
}

#[test]
fn left_and_right_wrap_into_the_next_row_and_stop_at_the_ends() {
    let mut app = editing("2");
    app.move_left();
    assert_eq!(app.currently_editing(), at(0, 0));
    let forward = [at(1, 0), at(2, 0), at(0, 1), at(1, 1), at(2, 1), at(2, 1)];
    for e in forward {
        app.move_right();
        assert_eq!(app.currently_editing(), e);
    }
    let backward = [at(1, 1), at(0, 1), at(2, 0), at(1, 0), at(0, 0), at(0, 0)];
    for e in backward {
        app.move_left();
        assert_eq!(app.currently_editing(), e);
    }
}

#[test]
fn up_and_down_stay_in_the_column_and_stop_at_the_ends() {
    let mut app = editing("3");
    app.move_right();
    app.move_up();
    assert_eq!(app.currently_editing(), at(1, 0));
    let down = [at(1, 1), at(1, 2), at(1, 2)];
    for e in down {
        app.move_down();
        assert_eq!(app.currently_editing(), e);
    }
    let up = [at(1, 1), at(1, 0), at(1, 0)];
    for e in up {
        app.move_up();
        assert_eq!(app.currently_editing(), e);
    }
}

#[test]
fn moves_do_nothing_in_the_size_buffer() {
    let mut app = App::new();
    type_text(&mut app, "3");
    app.move_left();
    app.move_right();
    app.move_up();
    app.move_down();
    assert_eq!(app.currently_editing(), CurrentlyEditing::EquationSize);
    assert_eq!(app.mat_size(), "3");
}

#[test]
fn keys_drive_the_editor() {
    let mut app = App::new();
    assert_eq!(app.handle_key(Key::Char('2')), Outcome::Continue);
    assert_eq!(app.handle_key(Key::Char('-')), Outcome::Continue);
    assert_eq!(app.mat_size(), "2");
    assert_eq!(app.handle_key(Key::BackTab), Outcome::Continue);
    assert_eq!(app.currently_editing(), CurrentlyEditing::EquationSize);
    assert_eq!(app.handle_key(Key::Enter), Outcome::Continue);
    assert_eq!(app.currently_editing(), at(0, 0));
    assert_eq!(app.handle_key(Key::Char('7')), Outcome::Continue);
    assert_eq!(app.handle_key(Key::Char('8')), Outcome::Continue);
    assert_eq!(app.handle_key(Key::Backspace), Outcome::Continue);
    assert_eq!(app.handle_key(Key::Tab), Outcome::Continue);
    assert_eq!(app.currently_editing(), at(1, 0));
    assert_eq!(app.handle_key(Key::Char('-')), Outcome::Continue);
    assert_eq!(app.handle_key(Key::Right), Outcome::Continue);
    assert_eq!(app.handle_key(Key::Char('l')), Outcome::Continue);
    assert_eq!(app.currently_editing(), at(0, 1));
    assert_eq!(app.handle_key(Key::Down), Outcome::Continue);
    assert_eq!(app.handle_key(Key::Char('j')), Outcome::Continue);
    assert_eq!(app.currently_editing(), at(0, 1));
    assert_eq!(app.handle_key(Key::Char('k')), Outcome::Continue);
    assert_eq!(app.currently_editing(), at(0, 0));
    assert_eq!(app.handle_key(Key::Up), Outcome::Continue);
    assert_eq!(app.handle_key(Key::Left), Outcome::Continue);
    assert_eq!(app.handle_key(Key::Char('h')), Outcome::Continue);
    assert_eq!(app.currently_editing(), at(0, 0));
    assert_eq!(app.handle_key(Key::Other), Outcome::Continue);
    assert_eq!(cells(&app), vec!["7", "-", "", "", "", ""]);
    assert_eq!(app.handle_key(Key::Enter), Outcome::Submit);
    assert_eq!(app.currently_editing(), at(0, 0));
    assert_eq!(app.handle_key(Key::Esc), Outcome::Quit);
    assert_eq!(app.handle_key(Key::Char('q')), Outcome::Quit);
    assert_eq!(cells(&app), vec!["7", "-", "", "", "", ""]);
}

#[test]
fn quit_keys_work_in_the_size_buffer() {
    let mut app = App::new();
    assert_eq!(app.handle_key(Key::Char('q')), Outcome::Quit);
    assert_eq!(app.handle_key(Key::Esc), Outcome::Quit);
    assert_eq!(app.handle_key(Key::Enter), Outcome::Continue);
    assert_eq!(app.currently_editing(), CurrentlyEditing::EquationSize);
    assert_eq!(app.mat_size(), "");
}

#[test]
fn solves_the_typed_system() {
    let mut app = editing("2");
    fill(&mut app, &["2", "1", "5", "1", "-1", "1"]);
    assert_eq!(app.solve(), Ok(vec![num(2, 1), num(1, 1)]));
    let m = app.system().unwrap();
    assert_eq!(m.order(), [2, 3]);
    assert_eq!(m.get(1, 1), num(-1, 1));
    assert_eq!(m.get(0, 2), num(5, 1));
}

#[test]
fn solves_decimal_cells() {
    let mut app = editing("2");
    fill(&mut app, &["0.5", "0", "1.25", "0", "-4", ".5"]);
    assert_eq!(app.solve(), Ok(vec![num(5, 2), num(-1, 8)]));
}

#[test]
fn unparsable_cells_count_as_one() {
    let mut app = editing("2");
    fill(&mut app, &["", "0", "-", "0", "1.2.3", "7"]);
    assert_eq!(app.solve(), Ok(vec![num(1, 1), num(7, 1)]));
}

#[test]
fn empty_grid_is_singular() {
    let app = editing("2");
    assert_eq!(app.solve(), Err(SolveError::Singular));
}

#[test]
fn zero_pivot_in_the_typed_system_is_singular() {
    let mut app = editing("2");
    fill(&mut app, &["0", "1", "3", "1", "0", "2"]);
    assert_eq!(app.solve(), Err(SolveError::Singular));
}

#[test]
fn oversized_cell_is_an_overflow() {
    let mut app = editing("1");
    fill(&mut app, &["1", "9223372036854775808"]);
    assert_eq!(app.solve(), Err(SolveError::Overflow));
    assert!(app.system().is_err());
}

#[test]
fn cell_values() {
    assert_eq!(cell_value("2.5"), Ok(num(5, 2)));
    assert_eq!(cell_value(""), Ok(num(1, 1)));
    assert_eq!(cell_value("x"), Ok(num(1, 1)));
    assert_eq!(cell_value("0.00000000000000000001"), Err(SolveError::Overflow));
}

#[test]
fn variable_names() {
    let names: String = (0..8).map(|i| variable_name(i).unwrap()).collect();
    assert_eq!(names, "xyzwvuts");
    assert_eq!(variable_name(25), Some('a'));
    assert_eq!(variable_name(26), Some('`'));
    assert_eq!(variable_name(120), Some('\u{2}'));
    assert_eq!(variable_name(121), None);
    assert_eq!(variable_name(255), None);
}
