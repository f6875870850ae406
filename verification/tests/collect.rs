use timelapse_builder::collect::{
    extension_is_raw, extension_is_supported, gather, is_raw, is_supported, order, GatherError, Input,
};
use timelapse_builder::Sort;

fn strings(v: &[&str]) -> Vec<String> {
    v.iter().map(|s| s.to_string()).collect()
}

#[test]
fn natural_orders_numerically() {
    let mut v: Vec<String> = strings(&["img10.png", "img2.png", "img1.png", "img21.png"]);
    order(&mut v, &[], Sort::Name, false);
    let got: Vec<&str> = v.iter().map(|p| p.as_str()).collect();
    assert_eq!(got, ["img1.png", "img2.png", "img10.png", "img21.png"]);
}

#[test]
fn name_order_reversed() {
    let mut v = strings(&["img10.png", "img2.png", "img1.png"]);
    order(&mut v, &[], Sort::Name, true);
    assert_eq!(v, strings(&["img10.png", "img2.png", "img1.png"]));
    let mut w = strings(&["img2.png", "img10.png", "img1.png"]);
    order(&mut w, &[], Sort::Name, true);
    assert_eq!(w, strings(&["img10.png", "img2.png", "img1.png"]));
}

#[test]
fn name_order_ignores_ascii_case() {
    let mut v = strings(&["B.png", "a.png", "C.png"]);
    order(&mut v, &[], Sort::Name, false);
    assert_eq!(v, strings(&["a.png", "B.png", "C.png"]));
}

#[test]
fn name_order_is_stable_for_equal_numbers() {
    let mut v = strings(&["a1.png", "a01.png", "a001.png"]);
    order(&mut v, &[], Sort::Name, false);
    assert_eq!(v, strings(&["a1.png", "a01.png", "a001.png"]));
    let mut w = strings(&["a01.png", "a1.png"]);
    order(&mut w, &[], Sort::Name, false);
    assert_eq!(w, strings(&["a01.png", "a1.png"]));
}

#[test]
fn name_order_prefix_and_symbols() {
    let mut v = strings(&["ab", "a", "x_", "x5", "x-"]);
    order(&mut v, &[], Sort::Name, false);
    assert_eq!(v, strings(&["a", "ab", "x-", "x5", "x_"]));
}

#[test]
fn name_order_numbers_saturate() {
    // Both numbers exceed u128::MAX, so they compare equal and keep their order.
    let big1 = "f340282366920938463463374607431768211457";
    let big2 = "f340282366920938463463374607431768211456";
    let mut v = strings(&[big1, big2, "f9"]);
    order(&mut v, &[], Sort::Name, false);
    assert_eq!(v, strings(&["f9", big1, big2]));
}

#[test]
fn time_order_is_stable() {
    let mut v = strings(&["c", "a", "b", "d"]);
    order(&mut v, &[30, 10, 20, 10], Sort::Time, false);
    assert_eq!(v, strings(&["a", "d", "b", "c"]));
    let mut w = strings(&["c", "a", "b"]);
    order(&mut w, &[-5, 7, 0], Sort::Time, true);
    assert_eq!(w, strings(&["a", "b", "c"]));
}

#[test]
fn given_order_kept_or_reversed() {
    let mut v = strings(&["z", "a", "m"]);
    order(&mut v, &[], Sort::Given, false);
    assert_eq!(v, strings(&["z", "a", "m"]));
    order(&mut v, &[], Sort::Given, true);
    assert_eq!(v, strings(&["m", "a", "z"]));
    let mut e: Vec<String> = Vec::new();
    order(&mut e, &[], Sort::Name, true);
    assert!(e.is_empty());
}

#[test]
fn supported_extensions() {
    assert!(is_supported("photo.JPG"));
    assert!(is_supported("dir/shot.webp"));
    assert!(is_supported("dir.d/x.Cr2"));
    assert!(!is_supported("notes.txt"));
    assert!(!is_supported("noext"));
    assert!(!is_supported(".png"));
    assert!(!is_supported("archive.png.gz"));
    assert!(is_raw("x.nef"));
    assert!(is_raw("X.3FR"));
    assert!(!is_raw("x.png"));
    assert!(!is_raw("raw"));
}

#[test]
fn extension_checks() {
    assert!(extension_is_supported("WEBP"));
    assert!(extension_is_supported("jpeg"));
    assert!(extension_is_supported("Dng"));
    assert!(!extension_is_supported("gif"));
    assert!(!extension_is_supported(""));
    assert!(extension_is_raw("3FR"));
    assert!(extension_is_raw("erf"));
    assert!(!extension_is_raw("png"));
}

#[test]
fn gather_collects_in_order() {
    let inputs = vec![
        Input::File("a.png".to_string()),
        Input::Directory(strings(&["d/1.jpg", "d/readme.txt", "d/2.ARW"])),
        Input::File("b.webp".to_string()),
    ];
    assert_eq!(gather(&inputs), Ok(strings(&["a.png", "d/1.jpg", "d/2.ARW", "b.webp"])));
    assert_eq!(gather(&Vec::new()), Ok(Vec::new()));
}

#[test]
fn gather_reports_missing_and_unsupported() {
    let missing = vec![
        Input::Directory(strings(&["d/1.jpg"])),
        Input::Missing("gone".to_string()),
        Input::File("notes.txt".to_string()),
    ];
    assert_eq!(gather(&missing), Err(GatherError::Missing("gone".to_string())));
    let unsupported = vec![Input::File("a.png".to_string()), Input::File("notes.txt".to_string())];
    assert_eq!(gather(&unsupported), Err(GatherError::Unsupported("notes.txt".to_string())));
}

#[test]
fn name_order_twice_changes_nothing() {
    let mut v = strings(&["b10", "B2", "a", "b01", "b1"]);
    order(&mut v, &[], Sort::Name, false);
    assert_eq!(v, strings(&["a", "b01", "b1", "B2", "b10"]));
    let once = v.clone();
    order(&mut v, &[], Sort::Name, false);
    assert_eq!(v, once);
}
