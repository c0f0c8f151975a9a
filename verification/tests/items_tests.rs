use dev_restaurant::items::{ItemError, Items};

#[test]
fn add_items_test() {
    let mut items = Items::new();
    items.add("Risoles", 164, 25000, 0, false);
    items.add("Ikan Asin", 512, 25182, 0, false);
    items.add("Sayur Asin", 59999, 9999999, 0, false);
    items.add("Telur", 9999999999, 99999999999, 0, false);

    assert_eq!(items.find_by_id(0).unwrap().name, "risoles");
    assert_eq!(items.find_by_id(1).unwrap().name, "ikan asin");
    assert_eq!(items.find_by_id(2).unwrap().name, "sayur asin");
    assert_eq!(items.find_by_id(3).unwrap().name, "telur");

    assert_eq!(items.find_by_id(0).unwrap().quantity, 164);
    assert_eq!(items.find_by_id(1).unwrap().quantity, 512);
    assert_eq!(items.find_by_id(2).unwrap().quantity, 59999);
    assert_eq!(items.find_by_id(3).unwrap().quantity, 9999999999);

    assert_eq!(items.find_by_id(0).unwrap().price, 25000);
    assert_eq!(items.find_by_id(1).unwrap().price, 25182);
    assert_eq!(items.find_by_id(2).unwrap().price, 9999999);
    assert_eq!(items.find_by_id(3).unwrap().price, 99999999999);
}

#[test]
fn update_items_test() {
    let mut items = Items::new();
    items.add("Risoles", 164, 25000, 0, false);
    items.add("Ikan Asin", 512, 25182, 0, false);
    items.add("Sayur Asin", 59999, 9999999, 0, false);
    items.add("Telur", 9999999999, 99999999999, 0, false);

    items.update(0, "Risoles", 100, 200);
    items.update(1, "Ikan Asin", 500, 600);
    items.update(2, "Sayur Asin", 900, 1);
    items.update(3, "Telur", 18953279, 83274914);

    assert_eq!(items.find_by_id(0).unwrap().quantity, 100);
    assert_eq!(items.find_by_id(1).unwrap().quantity, 500);
    assert_eq!(items.find_by_id(2).unwrap().quantity, 900);
    assert_eq!(items.find_by_id(3).unwrap().quantity, 18953279);

    assert_eq!(items.find_by_id(0).unwrap().price, 200);
    assert_eq!(items.find_by_id(1).unwrap().price, 600);
    assert_eq!(items.find_by_id(2).unwrap().price, 1);
    assert_eq!(items.find_by_id(3).unwrap().price, 83274914);
}

#[test]
#[allow(unused_must_use)]
fn buy_items_test() {
    let mut items = Items::new();
    items.add("Risoles", 164, 25000, 0, false);
    items.add("Ikan Asin", 512, 25182, 0, false);
    items.add("Sayur Asin", 59999, 9999999, 0, false);
    items.add("Telur", 9999999999, 99999999999, 0, false);

    items.buy("Risoles", 1);
    items.buy("Ikan Asin", 50);
    items.buy("Sayur Asin", 45);
    items.buy("Telur", 800);

    assert_eq!(items.find_by_id(0).unwrap().quantity, 163);
    assert_eq!(items.find_by_id(1).unwrap().quantity, 462);
    assert_eq!(items.find_by_id(2).unwrap().quantity, 59954);
    assert_eq!(items.find_by_id(3).unwrap().quantity, 9999999199);
}

#[test]
#[allow(unused_must_use)]
fn delete_items_test() {
    let mut items = Items::new();
    items.add("Risoles", 164, 25000, 0, false);
    items.add("Ikan Asin", 512, 25182, 0, false);
    items.add("Sayur Asin", 59999, 9999999, 0, false);
    items.add("Telur", 9999999999, 99999999999, 0, false);

    assert_eq!(items.find_item("Risoles").unwrap(), items.find_by_id(0).unwrap());

    items.delete("Risoles");

    assert_eq!(
        items.find_item("Risoles"),
        Err(ItemError::ItemNotFound("Risoles".to_string()))
    );
    assert_eq!(items.find_item("Ikan Asin").unwrap(), items.find_by_id(1).unwrap());
    assert_eq!(items.find_item("Sayur Asin").unwrap(), items.find_by_id(2).unwrap());
    assert_eq!(items.find_item("Telur").unwrap(), items.find_by_id(3).unwrap());
}

#[test]
fn sequential_adds_list_in_insertion_order() {
    let mut items = Items::new();
    items.add("Ayam", 1, 10, 0, false);
    items.add("Bakso", 2, 20, 0, false);
    items.add("Cumi", 3, 30, 0, false);
    items.add("Dendeng", 4, 40, 0, false);

    let list = items.get_item_list();
    assert_eq!(list.len(), 4);
    for (k, item) in list.iter().enumerate() {
        assert_eq!(item.id, k as i64);
    }
    assert_eq!(list[0].name, "ayam");
    assert_eq!(list[1].name, "bakso");
    assert_eq!(list[2].name, "cumi");
    assert_eq!(list[3].name, "dendeng");
}

#[test]
fn find_is_case_insensitive() {
    let mut items = Items::new();
    items.add("Risoles", 164, 25000, 0, false);
    let upper = items.find_item("RISOLES").unwrap();
    let lower = items.find_item("risoles").unwrap();
    assert_eq!(upper, lower);
    assert_eq!(upper.id, 0);
    assert_eq!(upper.name, "risoles");
}

#[test]
fn buy_decrements_exactly_and_reports_shortfall() {
    let mut items = Items::new();
    items.add("Sate", 10, 1500, 0, false);

    let price = items.buy("Sate", 4).unwrap();
    assert_eq!(price, 1500);
    assert_eq!(items.find_by_id(0).unwrap().quantity, 6);

    let shortfall = items.buy("Sate", 7);
    assert_eq!(shortfall, Err(ItemError::NotEnoughStock(6, 7)));
    assert_eq!(items.find_by_id(0).unwrap().quantity, 6);

    let missing = items.buy("Gulai", 1);
    assert_eq!(missing, Err(ItemError::ItemNotFound("Gulai".to_string())));
}

#[test]
fn delete_frees_lookup_and_keeps_other_ids() {
    let mut items = Items::new();
    items.add("Risoles", 164, 25000, 0, false);
    items.add("Telur", 9, 500, 0, false);

    assert_eq!(items.delete("Risoles"), Ok(1));
    assert_eq!(
        items.find_item("Risoles"),
        Err(ItemError::ItemNotFound("Risoles".to_string()))
    );
    assert_eq!(items.find_by_id(1).unwrap().name, "telur");
    assert_eq!(
        items.delete("Risoles"),
        Err(ItemError::ItemNotFound("Risoles".to_string()))
    );
}

#[test]
fn add_or_update_replaces_or_creates() {
    let mut items = Items::new();
    items.add_or_update("Soto", 5, 1000);
    assert_eq!(items.find_by_id(0).unwrap().quantity, 5);

    items.add_or_update("SOTO", 8, 1200);
    let soto = items.find_by_id(0).unwrap();
    assert_eq!(soto.quantity, 8);
    assert_eq!(soto.price, 1200);

    items.add_or_update("Rawon", 2, 900);
    assert_eq!(items.find_by_id(1).unwrap().name, "rawon");
}

#[test]
fn deleting_highest_id_frees_it_for_reuse() {
    let mut items = Items::new();
    items.add("Ayam", 1, 10, 0, false);
    items.add("Bakso", 2, 20, 0, false);
    assert_eq!(items.delete("Bakso"), Ok(1));
    items.add("Cumi", 3, 30, 0, false);
    assert_eq!(items.find_by_id(1).unwrap().name, "cumi");
}

#[test]
fn repeat_char_builds_padding() {
    assert_eq!(Items::repeat_char(5, ' '), "     ");
    assert_eq!(Items::repeat_char(3, 'x'), "xxx");
    assert_eq!(Items::repeat_char(0, 'y'), "");
}
