use cli_tools::balancer::{backend_url, failing, passing, BalanceError, Balancer};

fn names(v: &[&str]) -> Vec<String> {
    v.iter().map(|s| s.to_string()).collect()
}

#[test]
fn pick_goes_round_the_backends() {
    let mut b = Balancer::new(names(&["a", "b", "c"]));
    let mut seen = Vec::new();
    for _ in 0..5 {
        let (addr, len) = b.pick().unwrap();
        seen.push(addr);
        b.advance(len);
    }
    assert_eq!(seen, names(&["a", "b", "c", "a", "b"]));
}

#[test]
fn pick_without_backends_is_refused() {
    let mut b = Balancer::new(Vec::new());
    assert_eq!(b.pick(), Err(BalanceError::NoBackends));
}

#[test]
fn pick_starts_over_when_the_turn_is_past_the_end() {
    let mut b = Balancer::new(names(&["a", "b", "c"]));
    b.next = 2;
    b.retire(names(&["c"]));
    assert_eq!(b.pick(), Ok((String::from("a"), 2)));
    assert_eq!(b.next, 0);
}

#[test]
fn advance_wraps_at_the_given_length() {
    let mut b = Balancer::new(names(&["a", "b"]));
    b.next = 1;
    b.advance(2);
    assert_eq!(b.next, 0);
    b.advance(2);
    assert_eq!(b.next, 1);
}

#[test]
fn backend_url_joins_address_path_and_query() {
    assert_eq!(backend_url("0.0.0.0:8081", "/x/y", None), "http://0.0.0.0:8081/x/y");
    assert_eq!(backend_url("h:1", "/", Some("a=1&b=2")), "http://h:1/?a=1&b=2");
}

#[test]
fn failing_and_passing_split_by_probe() {
    let bes = names(&["a", "b", "c", "d"]);
    let probe = vec![true, false, true, false];
    assert_eq!(failing(&bes, &probe), names(&["b", "d"]));
    assert_eq!(passing(&bes, &probe), names(&["a", "c"]));
}

#[test]
fn health_check_moves_each_backend_to_one_list() {
    let mut b = Balancer::new(names(&["a", "b", "c"]));
    b.inactive = names(&["d", "e"]);
    let active = b.active.clone();
    let down = failing(&active, &vec![true, false, true]);
    b.retire(down);
    assert_eq!(b.active, names(&["a", "c"]));
    assert_eq!(b.inactive, names(&["d", "e", "b"]));
    let inactive = b.inactive.clone();
    let up = passing(&inactive, &vec![false, true, true]);
    b.restore(up);
    assert_eq!(b.inactive, names(&["d"]));
    assert_eq!(b.active, names(&["a", "c", "e", "b"]));
}

#[test]
fn a_health_check_round_keeps_every_backend_once() {
    let mut b = Balancer::new(names(&["a", "b", "c"]));
    b.inactive = names(&["d"]);
    let active = b.active.clone();
    b.retire(failing(&active, &vec![false, true, false]));
    let inactive = b.inactive.clone();
    assert_eq!(inactive, names(&["d", "a", "c"]));
    b.restore(passing(&inactive, &vec![true, false, true]));
    assert_eq!(b.active, names(&["b", "d", "c"]));
    assert_eq!(b.inactive, names(&["a"]));
}
