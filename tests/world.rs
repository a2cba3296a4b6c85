use raytracrr::world::scan_nearest;

fn below(t: u64, b: Option<u64>) -> bool {
    b.map_or(true, |x| t < x)
}

#[test]
fn scan_of_nothing_finds_nothing() {
    assert_eq!(scan_nearest(0, &|_: usize, _: Option<u64>| Some(1)), None);
}

#[test]
fn scan_keeps_the_closest_hit() {
    let hits: Vec<Option<u64>> = vec![Some(40), None, Some(12), Some(30), Some(12)];
    let probe = |o: usize, b: Option<u64>| hits[o].filter(|&h| below(h, b));
    assert_eq!(scan_nearest(hits.len(), &probe), Some((2, 12)));
}

#[test]
fn scan_ignores_reports_that_do_not_beat_the_bound() {
    // a probe that disregards its bound cannot displace a closer hit
    let hits = [5u64, 9, 7];
    let probe = |o: usize, _: Option<u64>| Some(hits[o]);
    assert_eq!(scan_nearest(3, &probe), Some((0, 5)));
}

#[test]
fn scan_finds_nothing_where_nothing_is_hit() {
    assert_eq!(scan_nearest(4, &|_: usize, _: Option<u64>| None), None);
}
