use docker_query::filter::{event_filter_type_to_string, EventFilter, EventFilterType, Filter};
use docker_query::opts::EventsOpts;
use docker_query::params::Params;
use docker_query::query::append_query;
use docker_query::secret::{SecretFilter, SecretListOpts};

#[test]
fn filters_json_label_and_type() {
    let mut b = EventsOpts::builder();
    b.filter(vec![
        EventFilter::Label("env".to_string()),
        EventFilter::Type(EventFilterType::Container),
    ]);
    let opts = b.build();
    let json = opts.params.get("filters").unwrap().clone();
    assert_eq!(json, "{\"label\":[\"env\"],\"type\":[\"container\"]}");
    let v: serde_json::Value = serde_json::from_str(&json).unwrap();
    let obj = v.as_object().unwrap();
    assert_eq!(obj.len(), 2);
    assert_eq!(obj["label"].as_array().unwrap().len(), 1);
    assert_eq!(obj["label"][0].as_str().unwrap(), "env");
    assert_eq!(obj["type"][0].as_str().unwrap(), "container");
}

#[test]
fn filters_accumulate_across_calls() {
    let mut b = EventsOpts::builder();
    b.filter(vec![
        EventFilter::Container("a".to_string()),
        EventFilter::Label("x".to_string()),
    ]);
    b.filter(vec![EventFilter::Container("b".to_string())]);
    let opts = b.build();
    let json = opts.params.get("filters").unwrap().clone();
    let v: serde_json::Value = serde_json::from_str(&json).unwrap();
    let obj = v.as_object().unwrap();
    assert_eq!(obj.len(), 2);
    let container = obj["container"].as_array().unwrap();
    assert_eq!(container.len(), 2);
    assert_eq!(container[0].as_str().unwrap(), "a");
    assert_eq!(container[1].as_str().unwrap(), "b");
    let label = obj["label"].as_array().unwrap();
    assert_eq!(label.len(), 1);
    assert_eq!(label[0].as_str().unwrap(), "x");
}

#[test]
fn since_until_last_call_wins() {
    let mut b = EventsOpts::builder();
    b.since(1);
    b.until(3);
    b.since(5);
    b.until(7);
    let opts = b.build();
    assert_eq!(opts.serialize(), Some("since=5&until=7".to_string()));
}

#[test]
fn negative_timestamp() {
    let mut b = EventsOpts::builder();
    b.since(-5);
    let opts = b.build();
    assert_eq!(opts.serialize(), Some("since=-5".to_string()));
}

#[test]
fn extreme_timestamps() {
    let mut b = EventsOpts::builder();
    b.since(i64::MIN);
    b.until(i64::MAX);
    let opts = b.build();
    assert_eq!(
        opts.serialize(),
        Some("since=-9223372036854775808&until=9223372036854775807".to_string())
    );
}

#[test]
fn snapshot_independent_of_later_calls() {
    let mut b = EventsOpts::builder();
    b.filter(vec![EventFilter::Label("env".to_string())]);
    let first = b.build();
    let first_query = first.serialize();
    b.filter(vec![EventFilter::Label("prod".to_string())]);
    let second = b.build();
    assert_eq!(first.serialize(), first_query);
    assert_ne!(first.serialize(), second.serialize());
}

#[test]
fn build_is_idempotent() {
    let mut b = EventsOpts::builder();
    b.since(42);
    let o1 = b.build();
    let o2 = b.build();
    assert_eq!(o1.serialize(), o2.serialize());
}

#[test]
fn serialize_empty_is_none() {
    let opts = EventsOpts::builder().build();
    assert_eq!(opts.serialize(), None);
}

#[test]
fn serialize_single_pair() {
    let mut params = Params::new();
    params.set("id", "abc".to_string());
    let opts = EventsOpts { params };
    assert_eq!(opts.serialize(), Some("id=abc".to_string()));
}

#[test]
fn serialize_percent_encodes_values() {
    let mut params = Params::new();
    params.set("name", "a b/c%".to_string());
    params.set("label", "A-z_1.~".to_string());
    let opts = EventsOpts { params };
    assert_eq!(
        opts.serialize(),
        Some("name=a%20b%2Fc%25&label=A-z_1.~".to_string())
    );
}

#[test]
fn serialize_percent_encodes_utf8_bytes() {
    let mut params = Params::new();
    params.set("name", "caf\u{e9}".to_string());
    let opts = EventsOpts { params };
    assert_eq!(opts.serialize(), Some("name=caf%C3%A9".to_string()));
}

#[test]
fn event_filter_type_tokens() {
    assert_eq!(event_filter_type_to_string(EventFilterType::Container), "container");
    assert_eq!(event_filter_type_to_string(EventFilterType::Image), "image");
    assert_eq!(event_filter_type_to_string(EventFilterType::Volume), "volume");
    assert_eq!(event_filter_type_to_string(EventFilterType::Network), "network");
    assert_eq!(event_filter_type_to_string(EventFilterType::Daemon), "daemon");
}

#[test]
fn secret_filter_encoding() {
    let (k, v) = SecretFilter::Id("i1".to_string()).query_key_val();
    assert_eq!((k, v.as_str()), ("id", "i1"));
    let (k, v) = SecretFilter::LabelKey("a".to_string()).query_key_val();
    assert_eq!((k, v.as_str()), ("label", "a"));
    let (k, v) = SecretFilter::LabelKeyVal("a".to_string(), "b".to_string()).query_key_val();
    assert_eq!((k, v.as_str()), ("label", "a=b"));
    let (k, v) = SecretFilter::Name("n".to_string()).query_key_val();
    assert_eq!((k, v.as_str()), ("name", "n"));
    let (k, v) = SecretFilter::Names("ns".to_string()).query_key_val();
    assert_eq!((k, v.as_str()), ("names", "ns"));
}

#[test]
fn secret_list_filters_json() {
    let mut b = SecretListOpts::builder();
    b.filter(vec![
        SecretFilter::Id("x".to_string()),
        SecretFilter::LabelKey("a".to_string()),
        SecretFilter::LabelKeyVal("b".to_string(), "c".to_string()),
    ]);
    let opts = b.build();
    let json = opts.params.get("filters").unwrap().clone();
    assert_eq!(json, "{\"id\":[\"x\"],\"label\":[\"a\",\"b=c\"]}");
}

#[test]
fn params_set_remove_get() {
    let mut params = Params::new();
    assert!(params.is_empty());
    params.set("since", "1".to_string());
    params.set("until", "2".to_string());
    params.set("since", "9".to_string());
    assert_eq!(params.len(), 2);
    assert_eq!(params.get("since").map(|s| s.as_str()), Some("9"));
    params.remove("since");
    assert_eq!(params.get("since"), None);
    assert_eq!(params.len(), 1);
}

#[test]
fn append_query_joins_with_question_mark() {
    assert_eq!(append_query("/secrets", None), "/secrets");
    assert_eq!(
        append_query("/secrets", Some("name=x".to_string())),
        "/secrets?name=x"
    );
}
