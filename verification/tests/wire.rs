use clink::codec::{
    decode_drink_list, decode_item, decode_slot, encode_drink_list, encode_drop_request,
    encode_item, encode_machine, encode_slot,
};
use clink::types::{DrinkList, Item, Machine, Slot};

#[test]
fn item_encodes_to_wire_form() {
    let item = Item {
        id: 7,
        name: "Cola".to_string(),
        price: 150,
    };
    let bytes = encode_item(&item);
    assert_eq!(bytes, b"{\"id\":7,\"name\":\"Cola\",\"price\":150}".to_vec());
}

#[test]
fn item_round_trips() {
    let item = Item {
        id: 12,
        name: "Root Beer".to_string(),
        price: 125,
    };
    let decoded = decode_item(&encode_item(&item)).unwrap();
    assert_eq!(decoded, item);
}

#[test]
fn item_round_trips_with_escapes() {
    let item = Item {
        id: 3,
        name: "say \"hi\" \\ bye".to_string(),
        price: 0,
    };
    let decoded = decode_item(&encode_item(&item)).unwrap();
    assert_eq!(decoded.name, item.name);
    assert_eq!(decoded.price, item.price);
}

#[test]
fn item_round_trips_beyond_ascii() {
    let item = Item {
        id: 9,
        name: "café ☕".to_string(),
        price: 200,
    };
    let decoded = decode_item(&encode_item(&item)).unwrap();
    assert_eq!(decoded, item);
}

#[test]
fn item_decode_rejects_other_bytes() {
    assert_eq!(decode_item(b""), None);
    assert_eq!(decode_item(b"{\"id\":,\"name\":\"x\",\"price\":1}"), None);
    assert_eq!(decode_item(b"{\"id\":1,\"name\":\"x\",\"price\":}"), None);
    assert_eq!(decode_item(b"{\"id\":1,\"name\":\"x\",\"price\":1} "), None);
    assert_eq!(decode_item(b"{\"id\":1,\"name\":\"x\",\"price\":1"), None);
    assert_eq!(decode_item(b"[1,2,3]"), None);
}

#[test]
fn slot_encodes_to_wire_form() {
    let slot = Slot {
        active: true,
        count: Some(8),
        empty: false,
        item: Item {
            id: 7,
            name: "Cola".to_string(),
            price: 150,
        },
        machine: 2,
        number: 4,
    };
    let bytes = encode_slot(&slot);
    assert_eq!(
        bytes,
        b"{\"active\":true,\"count\":8,\"empty\":false,\"item\":{\"id\":7,\"name\":\"Cola\",\"price\":150},\"machine\":2,\"number\":4}".to_vec()
    );
}

#[test]
fn slot_round_trips() {
    let slot = Slot {
        active: false,
        count: None,
        empty: true,
        item: Item {
            id: 31,
            name: "Cherry \"Zero\"".to_string(),
            price: 75,
        },
        machine: 11,
        number: 255,
    };
    let decoded = decode_slot(&encode_slot(&slot)).unwrap();
    assert_eq!(decoded, slot);
}

#[test]
fn slot_decode_rejects_other_bytes() {
    let slot = Slot {
        active: true,
        count: Some(1),
        empty: false,
        item: Item {
            id: 1,
            name: "x".to_string(),
            price: 1,
        },
        machine: 1,
        number: 1,
    };
    let mut bytes = encode_slot(&slot);
    bytes.push(b' ');
    assert_eq!(decode_slot(&bytes), None);
    assert_eq!(decode_slot(b"{\"active\":maybe}"), None);
    // a slot number beyond one byte is refused
    assert_eq!(
        decode_slot(
            b"{\"active\":true,\"count\":null,\"empty\":false,\"item\":{\"id\":1,\"name\":\"x\",\"price\":1},\"machine\":1,\"number\":256}"
        ),
        None
    );
}

fn sample_listing() -> DrinkList {
    DrinkList {
        machines: vec![
            Machine {
                display_name: "Big Drink".to_string(),
                id: 2,
                is_online: true,
                name: "bigdrink".to_string(),
                slots: vec![Slot {
                    active: true,
                    count: Some(8),
                    empty: false,
                    item: Item {
                        id: 7,
                        name: "Cola".to_string(),
                        price: 150,
                    },
                    machine: 2,
                    number: 1,
                }],
            },
            Machine {
                display_name: "Little Drink".to_string(),
                id: 3,
                is_online: false,
                name: "littledrink".to_string(),
                slots: vec![],
            },
        ],
        message: "ok".to_string(),
    }
}

#[test]
fn listing_encodes_to_wire_form() {
    let listing = DrinkList {
        machines: vec![sample_listing().machines[0].clone()],
        message: "ok".to_string(),
    };
    let bytes = encode_drink_list(&listing);
    assert_eq!(
        String::from_utf8(bytes).unwrap(),
        "{\"machines\":[{\"display_name\":\"Big Drink\",\"id\":2,\"is_online\":true,\
         \"name\":\"bigdrink\",\"slots\":[{\"active\":true,\"count\":8,\"empty\":false,\
         \"item\":{\"id\":7,\"name\":\"Cola\",\"price\":150},\"machine\":2,\"number\":1}]}],\
         \"message\":\"ok\"}"
    );
}

#[test]
fn listing_round_trips() {
    let listing = sample_listing();
    let decoded = decode_drink_list(&encode_drink_list(&listing)).unwrap();
    assert_eq!(decoded, listing);
}

#[test]
fn empty_listing_round_trips() {
    let listing = DrinkList {
        machines: vec![],
        message: "".to_string(),
    };
    let decoded = decode_drink_list(&encode_drink_list(&listing)).unwrap();
    assert_eq!(decoded, listing);
}

#[test]
fn listing_decode_rejects_other_bytes() {
    let mut bytes = encode_drink_list(&sample_listing());
    bytes.push(b'\n');
    assert_eq!(decode_drink_list(&bytes), None);
    assert_eq!(decode_drink_list(b"{\"machines\":[}"), None);
    assert_eq!(decode_drink_list(b"{\"machines\":[],\"message\":\"x\""), None);
}

#[test]
fn machine_wire_form_is_plain_json() {
    let machine = &sample_listing().machines[1];
    let bytes = encode_machine(machine);
    assert_eq!(
        String::from_utf8(bytes).unwrap(),
        "{\"display_name\":\"Little Drink\",\"id\":3,\"is_online\":false,\
         \"name\":\"littledrink\",\"slots\":[]}"
    );
}

#[test]
fn drop_order_wire_form() {
    let bytes = encode_drop_request("facts", 3);
    assert_eq!(bytes, b"{\"machine\":\"facts\",\"slot\":3}".to_vec());
}

#[test]
fn drop_order_escapes_machine_name() {
    let bytes = encode_drop_request("fa\"cts", 3);
    assert_eq!(bytes, b"{\"machine\":\"fa\\\"cts\",\"slot\":3}".to_vec());
}
