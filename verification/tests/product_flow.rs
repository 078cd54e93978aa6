use stockroom::product::ErrorKind;
use stockroom::product::Product;
use stockroom::product::ProductItem;
use stockroom::product::ProductList;

#[test]
fn catalog_keeps_ids_and_names_unique() {
    let mut list = ProductList::new();
    assert!(list.add(Product::new(1, "tea".to_string(), 250, 0)).is_ok());
    assert!(matches!(
        list.add(Product::new(1, "coffee".to_string(), 400, 0)),
        Err(ErrorKind::IDExists)
    ));
    assert!(matches!(
        list.add(Product::new(2, "tea".to_string(), 300, 0)),
        Err(ErrorKind::NameExists)
    ));
    assert!(list.add(Product::new(2, "coffee".to_string(), 400, 0)).is_ok());
    assert_eq!(list.get(2).unwrap().name, "coffee");
    assert!(list.get(3).is_none());
}

#[test]
fn quantities_move_within_bounds() {
    let mut p = Product::new(1, "tea".to_string(), 250, 5);
    p.add_quantity(3);
    assert_eq!(p.quantity, 8);
    assert!(p.remove_quantity(8).is_ok());
    assert_eq!(p.quantity, 0);
    assert!(matches!(p.remove_quantity(1), Err(ErrorKind::NotEnoughQuantity)));
    p.set_price(199);
    assert_eq!(p.price, 199);
}

#[test]
fn removal_by_name_finds_the_entry() {
    let mut list = ProductList::new();
    assert!(list.add(Product::new(1, "tea".to_string(), 250, 0)).is_ok());
    assert!(list.add(Product::new(2, "coffee".to_string(), 400, 0)).is_ok());
    assert!(list.remove_by_name("tea").is_ok());
    assert!(list.get(1).is_none());
    assert!(matches!(
        list.remove_by_name("tea"),
        Err(ErrorKind::ProductNotFound)
    ));
    if let Some(p) = list.get_mut(2) {
        p.set_price(450);
    }
    assert_eq!(list.get(2).unwrap().price, 450);
}

#[test]
fn error_texts_name_their_cause() {
    assert_eq!(ErrorKind::NotEnoughQuantity.as_str(), "Not enough quantity");
    assert_eq!(ErrorKind::ProductNotFound.as_str(), "Product not found");
    assert_eq!(ErrorKind::IDExists.as_str(), "ID already exists");
    assert_eq!(
        ErrorKind::NameExists.as_str(),
        "Product with this name already exists"
    );
    assert_eq!(ErrorKind::InvalidInput.as_str(), "Invalid input");
}

#[test]
fn placed_units_carry_their_position() {
    let mut it = ProductItem::new(7, 1, 2, 3, None);
    assert_eq!(it.position(), (1, 2, 3));
    assert_eq!(it.expiry(), None);
    it.place(2, 1, 1);
    assert_eq!(it.position(), (2, 1, 1));
    let copy = it.copy_at_zone(3, 3, 3);
    assert_eq!(copy.position(), (3, 3, 3));
    assert_eq!(copy.id, 7);
}
