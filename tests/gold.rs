use gold_ledger::{
    get_gold_info, modify_gold, modify_gold_with, parse_and_sum_gold, GoldError, LeftoverPolicy,
};

fn attr(id: &str, ty: &str, value: &str) -> String {
    format!("<attribute id=\"{}\" type=\"{}\" value=\"{}\" />", id, ty, value)
}

fn item(attrs: &[String]) -> String {
    let mut s = String::from("<node id=\"Item\">\n");
    for a in attrs {
        s.push_str("    ");
        s.push_str(a);
        s.push('\n');
    }
    s.push_str("</node>\n");
    s
}

fn gold_item(name: &str, amount: &str) -> String {
    item(&[
        attr("ItemName", "LSString", name),
        attr("Stats", "FixedString", "OBJ_Gold"),
        attr("Amount", "int32", amount),
    ])
}

fn doc(items: &[String]) -> String {
    let mut s = String::from(
        "<?xml version=\"1.0\" encoding=\"utf-8\"?>\n<save>\n<region id=\"Items\">\n<node id=\"root\">\n<children>\n<node id=\"ItemList\">\n<children>\n",
    );
    for i in items {
        s.push_str(i);
    }
    s.push_str("</children>\n</node>\n</children>\n</node>\n</region>\n</save>\n");
    s
}

fn plain_item(name: &str, amount: &str) -> String {
    item(&[
        attr("ItemName", "LSString", name),
        attr("Stats", "FixedString", "WPN_Longsword"),
        attr("Amount", "int32", amount),
    ])
}

#[test]
fn total_is_sum_of_every_gold_stack() {
    let d = doc(&[gold_item("Gold", "100"), plain_item("Sword", "1"), gold_item("Coins", "50")]);
    let info = get_gold_info(&d);
    assert_eq!(info.total_gold, 150);
    assert_eq!(info.items.len(), 2);
    assert_eq!(info.items[0].name, "Gold");
    assert_eq!(info.items[0].amount, 100);
    assert_eq!(info.items[1].name, "Coins");
    assert_eq!(info.items[1].amount, 50);
    assert_eq!(parse_and_sum_gold(&d), 150);
}

#[test]
fn loot_tag_counts_as_gold() {
    let g = item(&[
        attr("TemplateName", "FixedString", "LOOT_Gold_A"),
        attr("Amount", "int32", "7"),
    ]);
    let info = get_gold_info(&doc(&[g]));
    assert_eq!(info.total_gold, 7);
    assert_eq!(info.items.len(), 1);
    assert_eq!(info.items[0].name, "Gold");
}

#[test]
fn no_gold_reads_as_zero() {
    let d = doc(&[plain_item("Sword", "1"), plain_item("Shield", "3")]);
    let info = get_gold_info(&d);
    assert_eq!(info.total_gold, 0);
    assert!(info.items.is_empty());
    let empty = get_gold_info("");
    assert_eq!(empty.total_gold, 0);
    assert!(empty.items.is_empty());
}

#[test]
fn reading_twice_gives_the_same() {
    let d = doc(&[gold_item("Gold", "12"), gold_item("Gold", "30")]);
    let a = get_gold_info(&d);
    let b = get_gold_info(&d);
    assert_eq!(a.total_gold, b.total_gold);
    assert_eq!(a.items.len(), b.items.len());
    for (x, y) in a.items.iter().zip(b.items.iter()) {
        assert_eq!(x.name, y.name);
        assert_eq!(x.amount, y.amount);
    }
}

#[test]
fn write_then_read_gives_the_total() {
    let d = doc(&[gold_item("Gold", "100"), gold_item("Gold", "250"), gold_item("Gold", "9")]);
    for t in [0, 1, 999, 123456, i32::MAX] {
        let out = modify_gold(&d, t).unwrap();
        let info = get_gold_info(&out);
        assert_eq!(info.total_gold, t as i128);
        assert_eq!(info.items.len(), 3);
        assert_eq!(info.items[0].amount, t);
        assert_eq!(info.items[1].amount, 0);
        assert_eq!(info.items[2].amount, 0);
    }
}

#[test]
fn write_changes_only_the_amount_values() {
    let d = doc(&[gold_item("Gold", "100"), plain_item("Sword", "1"), gold_item("Gold", "5")]);
    let out = modify_gold(&d, 4321).unwrap();
    let expected = doc(&[gold_item("Gold", "4321"), plain_item("Sword", "1"), gold_item("Gold", "0")]);
    assert_eq!(out, expected);
}

#[test]
fn leftover_policy_one_keeps_minimal_stacks() {
    let d = doc(&[gold_item("Gold", "100"), gold_item("Gold", "5")]);
    let out = modify_gold_with(&d, 40, LeftoverPolicy::One).unwrap();
    assert_eq!(out, doc(&[gold_item("Gold", "40"), gold_item("Gold", "1")]));
    assert_eq!(get_gold_info(&out).total_gold, 41);
}

#[test]
fn negative_total_is_refused() {
    let d = doc(&[gold_item("Gold", "100")]);
    assert_eq!(modify_gold(&d, -1), Err(GoldError::Negative));
    assert_eq!(modify_gold(&d, i32::MIN), Err(GoldError::Negative));
    assert_eq!(modify_gold("", -1), Err(GoldError::Negative));
}

#[test]
fn no_gold_cannot_be_written() {
    let d = doc(&[plain_item("Sword", "1")]);
    assert_eq!(modify_gold(&d, 0), Err(GoldError::NoGold));
    assert_eq!(modify_gold(&d, 500), Err(GoldError::NoGold));
    assert_eq!(modify_gold("", 5), Err(GoldError::NoGold));
}

#[test]
fn gold_without_amount_field_is_not_writable() {
    let g = item(&[attr("Stats", "FixedString", "OBJ_Gold")]);
    let d = doc(&[g]);
    assert_eq!(modify_gold(&d, 10), Err(GoldError::NotWritable));
    let info = get_gold_info(&d);
    assert_eq!(info.total_gold, 1);
}

#[test]
fn nested_child_before_gold_reference_is_bounded() {
    // A tags list sits between the item's opening tag and its gold reference;
    // its closing tag must not end the item.
    let g = String::from(
        "<node id=\"Item\">\n<children>\n<node id=\"Tags\">\n<attribute id=\"Object\" type=\"guid\" value=\"abc\" />\n</node>\n</children>\n<attribute id=\"Stats\" type=\"FixedString\" value=\"OBJ_Gold\" />\n<attribute id=\"Amount\" type=\"int32\" value=\"77\" />\n</node>\n",
    );
    let d = doc(&[g, plain_item("Sword", "1")]);
    let info = get_gold_info(&d);
    assert_eq!(info.total_gold, 77);
    assert_eq!(info.items.len(), 1);
    let out = modify_gold(&d, 5).unwrap();
    assert_eq!(get_gold_info(&out).total_gold, 5);
}

#[test]
fn gold_of_a_later_sibling_is_not_attributed() {
    // The sword holds a child node; the gold stack after it is its own item.
    let sword = String::from(
        "<node id=\"Item\">\n<attribute id=\"Stats\" type=\"FixedString\" value=\"WPN_Sword\" />\n<attribute id=\"Amount\" type=\"int32\" value=\"3\" />\n<children>\n<node id=\"Tags\">\n</node>\n</children>\n</node>\n",
    );
    let d = doc(&[sword, gold_item("Gold", "20")]);
    let info = get_gold_info(&d);
    assert_eq!(info.total_gold, 20);
    assert_eq!(info.items.len(), 1);
}

#[test]
fn attributes_of_a_child_node_are_not_the_items() {
    let g = String::from(
        "<node id=\"Item\">\n<attribute id=\"Stats\" type=\"FixedString\" value=\"OBJ_Gold\" />\n<children>\n<node id=\"Extra\">\n<attribute id=\"Amount\" type=\"int32\" value=\"999\" />\n</node>\n</children>\n<attribute id=\"Amount\" type=\"int32\" value=\"15\" />\n</node>\n",
    );
    let info = get_gold_info(&doc(&[g]));
    assert_eq!(info.total_gold, 15);
}

#[test]
fn gold_outside_item_lists_is_not_counted() {
    let d = format!("<save>\n<node id=\"Items\">\n{}</node>\n</save>\n", gold_item("Gold", "500"));
    let info = get_gold_info(&d);
    assert_eq!(info.total_gold, 0);
    assert!(info.items.is_empty());
}

#[test]
fn self_closing_node_does_not_open() {
    let g = String::from(
        "<node id=\"Item\">\n<node id=\"Empty\" />\n<attribute id=\"Stats\" type=\"FixedString\" value=\"OBJ_Gold\" />\n<attribute id=\"Amount\" type=\"int32\" value=\"8\" />\n</node>\n",
    );
    let info = get_gold_info(&doc(&[g]));
    assert_eq!(info.total_gold, 8);
}

#[test]
fn coarse_field_is_read_when_alone() {
    let g = item(&[attr("Stats", "FixedString", "OBJ_Gold"), attr("Amount", "int32", "42")]);
    assert_eq!(get_gold_info(&doc(&[g])).total_gold, 42);
}

#[test]
fn no_amount_field_reads_as_one() {
    let g = item(&[attr("Stats", "FixedString", "OBJ_Gold")]);
    let info = get_gold_info(&doc(&[g]));
    assert_eq!(info.items.len(), 1);
    assert_eq!(info.items[0].amount, 1);
}

#[test]
fn stack_field_is_preferred_and_written() {
    let g = item(&[
        attr("Stats", "FixedString", "OBJ_Gold"),
        attr("Amount", "int32", "3"),
        attr("StackAmount", "int32", "60"),
    ]);
    let d = doc(&[g]);
    assert_eq!(get_gold_info(&d).total_gold, 60);
    let out = modify_gold(&d, 75).unwrap();
    let expected = doc(&[item(&[
        attr("Stats", "FixedString", "OBJ_Gold"),
        attr("Amount", "int32", "3"),
        attr("StackAmount", "int32", "75"),
    ])]);
    assert_eq!(out, expected);
}

#[test]
fn amount_text_forms() {
    let cases: [(&str, i32); 9] = [
        ("+5", 5),
        ("-3", -3),
        ("abc", 1),
        ("", 1),
        ("-", 1),
        ("12x", 1),
        ("2147483647", 2147483647),
        ("2147483648", 1),
        ("-2147483648", -2147483648),
    ];
    for (text, want) in cases {
        let g = item(&[attr("Stats", "FixedString", "OBJ_Gold"), attr("Amount", "int32", text)]);
        let info = get_gold_info(&doc(&[g]));
        assert_eq!(info.items[0].amount, want, "value {:?}", text);
    }
}

#[test]
fn large_totals_do_not_overflow() {
    let d = doc(&[gold_item("Gold", "2147483647"), gold_item("Gold", "2147483647")]);
    assert_eq!(get_gold_info(&d).total_gold, 2 * 2147483647i128);
}

#[test]
fn text_outside_the_fields_is_kept() {
    let g = item(&[
        attr("ItemName", "LSString", "Goldstücke ✓"),
        attr("Stats", "FixedString", "OBJ_Gold"),
        attr("Amount", "int32", "10"),
    ]);
    let d = doc(&[g]);
    let info = get_gold_info(&d);
    assert_eq!(info.items[0].name, "Goldstücke ✓");
    let out = modify_gold(&d, 11).unwrap();
    assert_eq!(out, d.replace("value=\"10\"", "value=\"11\""));
}
