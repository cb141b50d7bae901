use videonsole::resume::{fields_of, Left, Resume, HOW_MANY};

fn left(at: f64, stamp: u64) -> Left {
    Left {
        at: at.to_bits(),
        stamp,
    }
}

#[test]
fn the_list_is_most_recently_watched_first_and_has_an_end() {
    let mut resume = Resume::new();
    for number in 0..HOW_MANY + 20 {
        resume.remember(format!("/f/{number}.mkv").into_bytes(), left(300.0, 0));
    }
    assert_eq!(resume.marks().len(), HOW_MANY);
    assert_eq!(
        resume.marks()[0].0,
        format!("/f/{}.mkv", HOW_MANY + 19).into_bytes(),
        "the newest is first"
    );
    assert_eq!(resume.at(b"/f/0.mkv", 0), None, "the oldest fell off the end");
    assert_eq!(
        resume.at(format!("/f/{}.mkv", HOW_MANY + 19).as_bytes(), 0),
        Some(300.0_f64.to_bits())
    );
}

#[test]
fn a_replaced_file_starts_at_its_beginning() {
    let mut resume = Resume::new();
    resume.remember(b"/no/such/film.mkv".to_vec(), left(300.0, 0));
    assert_eq!(resume.at(b"/no/such/film.mkv", 0), Some(300.0_f64.to_bits()));
    // A mark whose stamp does not match the file is not offered.
    resume.remember(b"/no/such/film.mkv".to_vec(), left(300.0, 12345));
    assert_eq!(resume.at(b"/no/such/film.mkv", 0), None);
}

#[test]
fn nothing_new_is_nothing_to_write() {
    let mut resume = Resume::new();
    assert!(!resume.changed());
    resume.forget(b"/f/a.mkv");
    assert!(!resume.changed(), "forgetting a film never noted changed nothing");
    resume.remember(b"/f/a.mkv".to_vec(), left(300.0, 1));
    assert!(resume.changed());
    resume.saved();
    resume.remember(b"/f/a.mkv".to_vec(), left(300.0, 1));
    assert!(!resume.changed(), "the same mark again is nothing new");
    resume.remember(b"/f/a.mkv".to_vec(), left(301.0, 1));
    assert!(resume.changed());
}

#[test]
fn a_film_remembered_again_moves_to_the_front_and_is_there_once() {
    let mut resume = Resume::new();
    resume.remember(b"/f/a.mkv".to_vec(), left(100.0, 0));
    resume.remember(b"/f/b.mkv".to_vec(), left(200.0, 0));
    resume.remember(b"/f/a.mkv".to_vec(), left(150.0, 0));
    let films: Vec<Vec<u8>> = resume.marks().iter().map(|m| m.0.clone()).collect();
    assert_eq!(films, vec![b"/f/a.mkv".to_vec(), b"/f/b.mkv".to_vec()]);
    assert_eq!(resume.mark(b"/f/a.mkv"), Some(left(150.0, 0)));
}

#[test]
fn forgetting_a_film_keeps_the_others_in_their_order() {
    let mut resume = Resume::new();
    for name in ["/a", "/b", "/c"] {
        resume.remember(name.as_bytes().to_vec(), left(100.0, 0));
    }
    resume.saved();
    resume.forget(b"/b");
    assert!(resume.changed());
    let films: Vec<Vec<u8>> = resume.marks().iter().map(|m| m.0.clone()).collect();
    assert_eq!(films, vec![b"/c".to_vec(), b"/a".to_vec()]);
    assert_eq!(resume.mark(b"/b"), None);
}

#[test]
fn a_record_read_back_keeps_the_first_line_for_a_film() {
    let mut resume = Resume::new();
    resume.read_mark(b"/f/a.mkv".to_vec(), left(100.0, 0));
    resume.read_mark(b"/f/b.mkv".to_vec(), left(200.0, 0));
    resume.read_mark(b"/f/a.mkv".to_vec(), left(300.0, 0));
    assert_eq!(resume.marks().len(), 2);
    assert_eq!(resume.mark(b"/f/a.mkv"), Some(left(100.0, 0)));
    assert!(!resume.changed(), "reading is not a change");
}

#[test]
fn forgetting_a_film_just_remembered_leaves_the_record_as_it_was() {
    let mut resume = Resume::new();
    resume.remember(b"/f/a.mkv".to_vec(), left(100.0, 0));
    resume.remember(b"/f/b.mkv".to_vec(), left(200.0, 0));
    let before: Vec<(Vec<u8>, Left)> = resume.marks().clone();
    resume.remember(b"/f/c.mkv".to_vec(), left(300.0, 0));
    resume.forget(b"/f/c.mkv");
    assert_eq!(resume.marks(), &before);
}

#[test]
fn a_record_line_is_cut_at_its_first_two_tabs() {
    assert_eq!(
        fields_of("1234.5\t1700000000\t/f/a\tb.mkv"),
        Some((String::from("1234.5"), String::from("1700000000"), String::from("/f/a\tb.mkv")))
    );
    assert_eq!(fields_of("1\t2\t"), Some((String::from("1"), String::from("2"), String::new())));
    assert_eq!(fields_of("1\t2"), None, "two fields are not a mark");
    assert_eq!(fields_of(""), None);
}
