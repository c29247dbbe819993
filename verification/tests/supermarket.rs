use rust_exercises::supermarket::{Command, ParsedCommand, PriceWaiting, Product, Supermarket};

fn product(id: u32, quantity: usize) -> Product {
    Product {
        id,
        name: format!("p{}", id),
        expiration: "12/05/25".to_string(),
        price_bits: 5.32f64.to_bits(),
        quantity,
    }
}

fn ids(s: &Supermarket) -> Vec<(usize, usize, usize, u32, usize)> {
    let mut v = Vec::new();
    for (i, row) in s.products.iter().enumerate() {
        for (j, shelf) in row.iter().enumerate() {
            for (k, z) in shelf.iter().enumerate() {
                if let Some(p) = z {
                    v.push((i, j, k, p.id, p.quantity));
                }
            }
        }
    }
    v
}

#[test]
fn new_supermarket_has_one_empty_shelf() {
    let s = Supermarket::new();
    assert_eq!(s.products.len(), 1);
    assert_eq!(s.products[0].len(), 1);
    assert!(s.products[0][0].is_empty());
}

#[test]
fn add_then_find() {
    let mut s = Supermarket::new();
    assert_eq!(s.apply(Command::AddProduct(1, 5, 6, product(123, 1))), Ok("Added product"));
    assert_eq!(s.find_coords(123), Ok((1, 5, 6)));
    assert_eq!(s.products[1][5].len(), 7);
    assert_eq!(s.apply(Command::AddProduct(0, 0, 0, product(123, 1))), Err("Product already exists"));
    assert_eq!(s.find_coords(999), Err("Product not found"));
}

#[test]
fn resupply_and_remove() {
    let mut s = Supermarket::new();
    s.apply(Command::AddProduct(0, 0, 1, product(1, 2))).unwrap();
    s.apply(Command::AddProduct(0, 0, 3, product(2, 5))).unwrap();
    assert_eq!(s.apply(Command::Resupply(1, 3)), Ok("Resupplied"));
    assert_eq!(ids(&s), vec![(0, 0, 1, 1, 5), (0, 0, 3, 2, 5)]);
    assert_eq!(s.apply(Command::RemoveProduct(1, 6)), Err("Cannot remove more than in "));
    assert_eq!(s.apply(Command::RemoveProduct(1, 2)), Ok("Product Removed"));
    assert_eq!(ids(&s), vec![(0, 0, 1, 1, 3), (0, 0, 3, 2, 5)]);
    // Removing the whole quantity takes the zone out: later zones shift.
    assert_eq!(s.apply(Command::RemoveProduct(1, 3)), Ok("Product Removed"));
    assert_eq!(ids(&s), vec![(0, 0, 2, 2, 5)]);
    assert_eq!(s.apply(Command::Resupply(1, 1)), Err("Product not found"));
    assert_eq!(s.apply(Command::RemoveProduct(1, 1)), Err("Product not found"));
}

#[test]
fn change_price_and_show() {
    let mut s = Supermarket::new();
    s.apply(Command::AddProduct(0, 0, 0, product(4, 1))).unwrap();
    assert_eq!(s.apply(Command::ChangePrice(4, 9.5f64.to_bits())), Ok("New price set"));
    assert_eq!(s.products[0][0][0].as_ref().map(|p| f64::from_bits(p.price_bits)), Some(9.5));
    assert_eq!(s.apply(Command::ChangePrice(5, 1)), Err("Product not found"));
    assert_eq!(s.apply(Command::Show), Ok("Showed"));
}

#[test]
fn move_product() {
    let mut s = Supermarket::new();
    s.apply(Command::AddProduct(0, 0, 0, product(1, 1))).unwrap();
    s.apply(Command::AddProduct(0, 1, 2, product(2, 1))).unwrap();
    assert_eq!(s.apply(Command::MoveTo(1, 0, 1, 2)), Err("Product already occupied"));
    assert_eq!(s.apply(Command::MoveTo(1, 0, 1, 0)), Ok("Product moved"));
    // The target shelf is resized to end at the target zone.
    assert_eq!(ids(&s), vec![(0, 1, 0, 1, 1)]);
    assert!(s.products[0][0].is_empty());
    assert_eq!(s.apply(Command::MoveTo(9, 0, 0, 0)), Err("Product not found"));
}

#[test]
fn read_simple_commands() {
    let s = Supermarket::new();
    assert!(matches!(s.read_command("resupply 12 3"), Ok(ParsedCommand::Ready(Command::Resupply(12, 3)))));
    assert!(matches!(s.read_command("removeProduct 7 +2"), Ok(ParsedCommand::Ready(Command::RemoveProduct(7, 2)))));
    assert!(matches!(s.read_command("moveTo 7 1 2 3"), Ok(ParsedCommand::Ready(Command::MoveTo(7, 1, 2, 3)))));
    assert!(matches!(s.read_command("show"), Ok(ParsedCommand::Ready(Command::Show))));
    assert!(matches!(s.read_command("  show   extra"), Ok(ParsedCommand::Ready(Command::Show))));
}

#[test]
fn read_command_errors() {
    let s = Supermarket::new();
    assert!(matches!(s.read_command("dance"), Err("Command Not valid")));
    assert!(matches!(s.read_command("resupply x 3"), Err("Invalid ID")));
    assert!(matches!(s.read_command("resupply 4294967296 3"), Err("Invalid ID")));
    assert!(matches!(s.read_command("resupply 1"), Err("Invalid quantity")));
    assert!(matches!(s.read_command("moveTo 1 a 2 3"), Err("Failed to parse 'Fila'")));
    assert!(matches!(s.read_command("moveTo 1 1 b 3"), Err("Failed to parse 'Prateleira'")));
    assert!(matches!(s.read_command("moveTo 1 1 2"), Err("Failed to parse 'Zona'")));
    assert!(matches!(s.read_command("addProduct 1 2"), Err("Failed to parse 'Zona'")));
    assert!(matches!(s.read_command("addProduct 1 2 3 id"), Err("Invalid ID")));
    assert!(matches!(s.read_command("changePrice q 2.0"), Err("Invalid ID")));
}

#[test]
fn read_commands_with_prices() {
    let s = Supermarket::new();
    match s.read_command("addProduct 1 2 3 123 milk 12/05/25 5.32 4") {
        Ok(ParsedCommand::NeedsPrice(w, price)) => {
            assert_eq!(price, "5.32");
            let bits = price.parse::<f64>().ok().map(|p| p.to_bits());
            match w.with_price(bits) {
                Ok(Command::AddProduct(1, 2, 3, p)) => {
                    assert_eq!(p.id, 123);
                    assert_eq!(p.name, "milk");
                    assert_eq!(p.expiration, "12/05/25");
                    assert_eq!(f64::from_bits(p.price_bits), 5.32);
                    assert_eq!(p.quantity, 4);
                },
                _ => panic!("unexpected command"),
            }
        },
        _ => panic!("unexpected parse"),
    }
    match s.read_command("addProduct 1 2 3 123") {
        Ok(ParsedCommand::NeedsPrice(PriceWaiting::AddProduct(_, _, _, 123, name, date, qty), price)) => {
            assert_eq!(name, "Expecting Product Name");
            assert_eq!(date, "Expecting Product Expiration Date");
            assert_eq!(price, "Expecting Product Price");
            assert_eq!(qty, "Expecting Product Quantity");
        },
        _ => panic!("unexpected parse"),
    }
    match s.read_command("addProduct 1 2 3 123 n d 1.0 many") {
        Ok(ParsedCommand::NeedsPrice(w, _)) => {
            assert!(matches!(w.with_price(Some(1.0f64.to_bits())), Err("Invalid quantity")));
        },
        _ => panic!("unexpected parse"),
    }
    match s.read_command("addProduct 1 2 3 123 n d cheap many") {
        Ok(ParsedCommand::NeedsPrice(w, _)) => {
            assert!(matches!(w.with_price(None), Err("Invalid Price")));
        },
        _ => panic!("unexpected parse"),
    }
    match s.read_command("changePrice 9 2.5") {
        Ok(ParsedCommand::NeedsPrice(w, price)) => {
            assert_eq!(price, "2.5");
            assert!(matches!(w.with_price(Some(2.5f64.to_bits())), Ok(Command::ChangePrice(9, b)) if b == 2.5f64.to_bits()));
        },
        _ => panic!("unexpected parse"),
    }
    match s.read_command("changePrice 9") {
        Ok(ParsedCommand::NeedsPrice(w, _)) => assert!(matches!(w.with_price(None), Err("Invalid price"))),
        _ => panic!("unexpected parse"),
    }
}

#[test]
fn remove_undoes_resupply() {
    let mut s = Supermarket::new();
    s.apply(Command::AddProduct(0, 0, 0, product(1, 4))).unwrap();
    let before = ids(&s);
    assert_eq!(s.apply(Command::Resupply(1, 6)), Ok("Resupplied"));
    assert_eq!(s.apply(Command::RemoveProduct(1, 6)), Ok("Product Removed"));
    assert_eq!(ids(&s), before);
}

#[test]
fn command_completes_checks_targets_and_overflow() {
    let mut s = Supermarket::new();
    s.apply(Command::AddProduct(0, 0, 0, product(1, usize::MAX))).unwrap();
    assert!(!s.command_completes(&Command::Resupply(1, 1)));
    assert!(s.command_completes(&Command::Resupply(1, 0)));
    assert!(s.command_completes(&Command::Resupply(2, 1)));
    assert!(!s.command_completes(&Command::MoveTo(1, 3, 0, 0)));
    assert!(s.command_completes(&Command::MoveTo(1, 0, 0, 0)));
    assert!(s.command_completes(&Command::MoveTo(7, 3, 0, 0)));
    assert!(!s.command_completes(&Command::AddProduct(0, 0, usize::MAX, product(2, 1))));
}
