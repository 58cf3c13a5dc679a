use simpa_core::order::upstream_sort;
use simpa_core::proj::to_long;

/// `upstream_sort` on ids given as text (`None`: no `wxid`), as the list comes out.
fn sorted(ids: &[Option<&str>]) -> Vec<Option<String>> {
    let mut v: Vec<(Option<String>, usize)> = ids
        .iter()
        .enumerate()
        .map(|(i, x)| (x.map(str::to_string), i))
        .collect();
    upstream_sort(&mut v);
    v.into_iter().map(|(x, _)| x).collect()
}

fn some(ids: &[&str]) -> Vec<Option<String>> {
    ids.iter().map(|s| Some(s.to_string())).collect()
}

#[test]
fn upstream_sort_orders_what_upstream_orders() {
    // Tutorial 1's SPPS snapshot: receivers and surface groups saved newest first.
    assert_eq!(sorted(&[Some("3669"), Some("3510")]), some(&["3510", "3669"]));
    assert_eq!(
        sorted(&[Some("3147"), Some("3144"), Some("3141")]),
        some(&["3141", "3144", "3147"])
    );
    // A list already ascending is left as it is.
    assert_eq!(
        sorted(&[Some("1463"), Some("1466"), Some("1469")]),
        some(&["1463", "1466", "1469"])
    );
}

#[test]
fn upstream_sort_keeps_its_quirks() {
    // Once the first holds the smallest id, nothing else moves: not a full sort.
    assert_eq!(sorted(&[Some("2"), Some("5"), Some("4")]), some(&["2", "5", "4"]));
    // Every pass compares with the first id, not the neighbour's: 5 and 4 never meet.
    assert_eq!(
        sorted(&[Some("3"), Some("1"), Some("5"), Some("4")]),
        some(&["1", "3", "5", "4"])
    );
    // No sort when the first id does not read.
    assert_eq!(
        sorted(&[None, Some("5"), Some("1")]),
        vec![None, Some("5".into()), Some("1".into())]
    );
    assert_eq!(sorted(&[Some("x"), Some("5"), Some("1")]), some(&["x", "5", "1"]));
    // A node without a wxid counts with the last id read: here 1, so it moves with it.
    assert_eq!(
        sorted(&[Some("5"), Some("1"), None]),
        vec![Some("1".into()), None, Some("5".into())]
    );
    // One after a larger id counts with that one and stays.
    assert_eq!(
        sorted(&[Some("1"), Some("5"), None]),
        vec![Some("1".into()), Some("5".into()), None]
    );
}

#[test]
fn upstream_sort_ends_on_every_short_list() {
    // Every list of up to 6 nodes with ids 0 to 5, missing or unreadable, in every order:
    // the loop ends, and the first node holds the smallest readable id or the list is as it
    // came (first id unreadable).
    let values = ["0", "1", "2", "3", "4", "5"];
    for n in 1..=6usize {
        let choices = n + 2;
        let total = choices.pow(n as u32);
        for code in 0..total {
            let mut c = code;
            let ids: Vec<Option<&str>> = (0..n)
                .map(|_| {
                    let k = c % choices;
                    c /= choices;
                    match k {
                        k if k < n => Some(values[k]),
                        k if k == n => None,
                        _ => Some("x"),
                    }
                })
                .collect();
            let out = sorted(&ids);
            let first = ids[0].and_then(to_long);
            if first.is_none() {
                assert_eq!(
                    out,
                    ids.iter().map(|x| x.map(str::to_string)).collect::<Vec<_>>()
                );
                continue;
            }
            let least = ids.iter().filter_map(|x| x.and_then(to_long)).min();
            assert_eq!(out[0].as_deref().and_then(to_long), least, "{ids:?} -> {out:?}");
        }
    }
}

#[test]
fn upstream_sort_moves_children_with_their_ids() {
    // Equal ids: the children keep their own payloads while they move.
    let mut v: Vec<(Option<String>, char)> = vec![
        (Some("7".into()), 'a'),
        (Some("3".into()), 'b'),
        (Some("3".into()), 'c'),
    ];
    upstream_sort(&mut v);
    let order: Vec<char> = v.iter().map(|(_, c)| *c).collect();
    assert_eq!(order, vec!['b', 'c', 'a']);
}
