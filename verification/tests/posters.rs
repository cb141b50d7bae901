use videonsole::posters::Posters;

#[test]
fn a_film_is_asked_about_once() {
    let mut posters: Posters<u32> = Posters::new();
    let a = b"/f/a.mkv".to_vec();
    let b = b"/f/b.mkv".to_vec();
    assert_eq!(posters.want(&[a.clone(), b.clone(), a.clone()]), vec![a.clone(), b.clone()]);
    assert!(posters.want(&[a.clone(), b.clone()]).is_empty(), "still waiting is not asked again");
    assert!(!posters.settled(&a));
    posters.settle(a.clone(), Some(7));
    posters.settle(b.clone(), None);
    assert!(posters.settled(&a) && posters.settled(&b));
    assert_eq!(posters.facts(&a), Some(&7));
    assert_eq!(posters.facts(&b), None, "refused is known to be nothing");
    assert!(posters.want(&[b.clone()]).is_empty(), "a refused film is not opened again");
    assert_eq!(posters.facts(b"/f/c.mkv"), None);
}

#[test]
fn films_are_asked_for_in_the_order_given() {
    let mut posters: Posters<u32> = Posters::new();
    let a = b"/f/a.mkv".to_vec();
    let b = b"/f/b.mkv".to_vec();
    let c = b"/f/c.mkv".to_vec();
    assert_eq!(posters.want(&[c.clone()]), vec![c.clone()]);
    assert_eq!(
        posters.want(&[b.clone(), c.clone(), a.clone(), b.clone()]),
        vec![b.clone(), a.clone()]
    );
}
