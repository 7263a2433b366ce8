use customer_store::customer::Customer;
use customer_store::handlers::{
    create_customer, delete_customer, get_customer, list_customers, update_customer,
};
use customer_store::store::CustomerStore;
use warp::http::StatusCode;

fn customer(guid: &str, name: &str) -> Customer {
    Customer {
        guid: guid.to_string(),
        name: name.to_string(),
        email: format!("{}@example.com", name),
        address: String::new(),
    }
}

#[test]
fn create_read_update_delete_in_turn() {
    let mut store = CustomerStore::new();

    assert_eq!(create_customer(customer("A", "X"), &mut store), StatusCode::CREATED);
    assert_eq!(create_customer(customer("A", "Y"), &mut store), StatusCode::BAD_REQUEST);
    assert_eq!(
        list_customers(&store),
        (StatusCode::OK, vec![customer("A", "X")])
    );

    let (status, found) = get_customer("A".to_string(), &store);
    assert_eq!(status, StatusCode::OK);
    assert_eq!(found.map(|c| c.name), Some("X".to_string()));

    assert_eq!(
        update_customer("A".to_string(), customer("A", "Z"), &mut store),
        StatusCode::OK
    );
    let (status, found) = get_customer("A".to_string(), &store);
    assert_eq!(status, StatusCode::OK);
    assert_eq!(found.map(|c| c.name), Some("Z".to_string()));

    assert_eq!(delete_customer("A".to_string(), &mut store), StatusCode::NO_CONTENT);
    assert_eq!(
        get_customer("A".to_string(), &store),
        (StatusCode::NOT_FOUND, None)
    );
    assert_eq!(delete_customer("A".to_string(), &mut store), StatusCode::NO_CONTENT);
    assert_eq!(list_customers(&store), (StatusCode::OK, vec![]));
}
