use eup_resizer::assets::{parse_asset, rename_with_id};
use eup_resizer::ids::UsedIds;
use eup_resizer::names::{collide_name, number_name, split_name};
use eup_resizer::text::to_chars;

fn parsed(name: &str) -> Option<(String, u32, usize, usize)> {
    parse_asset(&to_chars(name)).map(|key| (key.prefix, key.id, key.start, key.end))
}

#[test]
fn asset_names_are_parsed() {
    assert_eq!(
        parsed("jbib_014_u.ydd"),
        Some(("jbib".to_string(), 14, 5, 8))
    );
    assert_eq!(
        parsed("jbib_diff_014_a_uni.ytd"),
        Some(("jbib".to_string(), 14, 10, 13))
    );
    assert_eq!(
        parsed("MP_M_Freemode_01^P_Head_Diff_003_A.YTD"),
        Some(("p_head".to_string(), 3, 29, 32))
    );
    assert_eq!(
        parsed("a_1_b_2_c.ydd"),
        Some(("a_1_b".to_string(), 2, 6, 7))
    );
    assert_eq!(parsed("_014.ydd"), Some((String::new(), 14, 1, 4)));
}

#[test]
fn other_names_are_no_assets() {
    for name in [
        "",
        "jbib",
        "jbib_014_u",
        "jbib_014_u.ymt",
        "jbib_u.ydd",
        "014_u.ydd",
        "jbib_014.ytd",
        "jbib_diff.ytd",
        "jbib_diff_x.ytd",
        "diff_014.ytd",
        "jbib_4294967296_u.ydd",
        ".ydd",
    ] {
        assert_eq!(parsed(name), None, "{name}");
    }
    assert_eq!(
        parsed("jbib_4294967295_u.ydd").map(|(_, id, _, _)| id),
        Some(u32::MAX)
    );
}

#[test]
fn a_new_number_is_read_back() {
    for (name, id, width, renamed) in [
        ("jbib_014_u.ydd", 16, 3, "jbib_016_u.ydd"),
        ("jbib_diff_014_a_uni.ytd", 1000, 3, "jbib_diff_1000_a_uni.ytd"),
        ("x^p_head_diff_3_a.YTD", 7, 1, "x^p_head_diff_7_a.YTD"),
        ("a_1_b_2_c.ydd", 5, 4, "a_1_b_0005_c.ydd"),
    ] {
        let chars = to_chars(name);
        let key = parse_asset(&chars).unwrap();
        let new = rename_with_id(&chars, &key, id, width);
        assert_eq!(new, renamed);
        let again = parse_asset(&to_chars(&new)).unwrap();
        assert_eq!((again.prefix, again.id), (key.prefix, id));
    }
}

#[test]
fn free_numbers_are_found() {
    let mut used = UsedIds::new();
    assert!(used.can_find_free_id());
    assert_eq!(used.find_free_id(0), (0, 1));
    assert!(used.contains(0));
    used.insert(14);
    used.insert(15);
    assert_eq!(used.find_free_id(3), (16, 3));
    used.insert(999);
    assert_eq!(used.find_free_id(3), (1, 3));
    for id in 0..1000 {
        used.insert(id);
    }
    assert_eq!(used.find_free_id(3), (1000, 4));
    assert_eq!(used.find_free_id(3), (1001, 4));
    used.insert(u32::MAX);
    assert!(!used.can_find_free_id());
}

#[test]
fn names_are_parted() {
    assert_eq!(
        split_name("a.b.ytd"),
        ("a.b".to_string(), Some("ytd".to_string()))
    );
    assert_eq!(split_name(".bak"), (".bak".to_string(), None));
    assert_eq!(split_name("plain"), ("plain".to_string(), None));
    assert_eq!(
        split_name("end."),
        ("end".to_string(), Some(String::new()))
    );
}

#[test]
fn other_names_are_made_up() {
    assert_eq!(number_name(Some("a"), Some("ytd"), 2), "a_2.ytd");
    assert_eq!(number_name(None, None, 10), "file_10");
    assert_eq!(
        collide_name(Some("a"), Some("ymt"), "pack2", 0),
        "a_pack2.ymt"
    );
    assert_eq!(
        collide_name(Some("a"), None, "pack2", 3),
        "a_pack2_3"
    );
}

#[test]
fn numbers_that_are_spelled_alike_keep_names_apart() {
    let renamed = |name: &str| {
        let chars = to_chars(name);
        rename_with_id(&chars, &parse_asset(&chars).unwrap(), 15, 3)
    };
    assert_ne!(renamed("jbib_014_u.ydd"), renamed("jbib_014_r.ydd"));
    assert_ne!(renamed("jbib_014_u.ydd"), renamed("jbib_diff_014_u.ytd"));
    assert_ne!(renamed("x^jbib_014.ydd"), renamed("y^jbib_014.ydd"));
    assert_eq!(renamed("jbib_14_u.ydd"), renamed("jbib_014_u.ydd"));
}
