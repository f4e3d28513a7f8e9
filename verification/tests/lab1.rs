use mlserver::lab1::StorageClient;

#[test]
fn empty_reply_means_no_value() {
    assert_eq!(StorageClient::value_from_reply(String::new()), None);
}

#[test]
fn nonempty_reply_is_the_value() {
    assert_eq!(StorageClient::value_from_reply("v".to_string()), Some("v".to_string()));
    let c = StorageClient { addr: "127.0.0.1:1".to_string() };
    assert_eq!(c.addr, "127.0.0.1:1");
}
