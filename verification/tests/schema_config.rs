//! Tests of the schema configuration and schema-driven preparation.

use tinysearch::schema::{extract_string_value, prepare_posts, FieldValue, Post, SearchSchema};

#[test]
fn test_default_schema() {
    let schema = SearchSchema::default();
    assert_eq!(schema.indexed_fields, vec!["title", "body"]);
    assert_eq!(schema.metadata_fields, Vec::<String>::new());
    assert_eq!(schema.url_field, "url");
    if let Err(e) = schema.validate() {
        panic!("Default schema validation failed: {:?}", e);
    }
}

#[test]
fn test_validation_empty_indexed_fields() {
    let schema = SearchSchema {
        indexed_fields: vec![],
        metadata_fields: vec!["url".to_string()],
        url_field: "url".to_string(),
    };
    assert!(schema.validate().is_err());
}

#[test]
fn test_validation_empty_url_field() {
    let schema = SearchSchema {
        indexed_fields: vec!["title".to_string()],
        metadata_fields: vec![],
        url_field: String::new(),
    };
    assert!(schema.validate().is_err());
}

#[test]
fn test_validation_duplicate_fields() {
    let schema = SearchSchema {
        indexed_fields: vec!["title".to_string(), "body".to_string()],
        metadata_fields: vec!["title".to_string()], // Duplicate!
        url_field: "url".to_string(),
    };
    assert!(schema.validate().is_err());
}

#[test]
fn test_all_fields_method() {
    let schema = SearchSchema {
        indexed_fields: vec!["title".to_string(), "body".to_string()],
        metadata_fields: vec!["author".to_string(), "date".to_string()],
        url_field: "permalink".to_string(),
    };

    let all_fields = schema.all_fields();
    assert!(all_fields.contains(&"title".to_string()));
    assert!(all_fields.contains(&"body".to_string()));
    assert!(all_fields.contains(&"author".to_string()));
    assert!(all_fields.contains(&"date".to_string()));
    assert!(all_fields.contains(&"permalink".to_string()));
}

#[test]
fn all_fields_skips_contained_url_field() {
    let schema = SearchSchema {
        indexed_fields: vec!["title".to_string(), "url".to_string()],
        metadata_fields: vec![],
        url_field: "url".to_string(),
    };
    let all_fields = schema.all_fields();
    assert_eq!(all_fields, vec!["title".to_string(), "url".to_string()]);
}

#[test]
fn test_extract_string_value() {
    assert_eq!(
        extract_string_value(&FieldValue::Text("test".to_string())),
        "test"
    );
    assert_eq!(
        extract_string_value(&FieldValue::Number("42".to_string())),
        "42"
    );
    assert_eq!(extract_string_value(&FieldValue::Truth(true)), "true");

    let array = FieldValue::List(vec![
        FieldValue::Text("hello".to_string()),
        FieldValue::Text("world".to_string()),
    ]);
    assert_eq!(extract_string_value(&array), "hello world");

    assert_eq!(extract_string_value(&FieldValue::Nothing), "");
}

#[test]
fn extract_list_skips_non_text_elements() {
    let array = FieldValue::List(vec![
        FieldValue::Text("keep".to_string()),
        FieldValue::Number("7".to_string()),
        FieldValue::Text("these".to_string()),
    ]);
    assert_eq!(extract_string_value(&array), "keep these");
}

#[test]
fn test_prepare_posts_with_schema() {
    let post_fields = vec![
        ("title".to_string(), FieldValue::Text("Test Title".to_string())),
        ("url".to_string(), FieldValue::Text("https://example.com".to_string())),
        ("body".to_string(), FieldValue::Text("Test body content".to_string())),
    ];

    let posts = vec![Post { fields: post_fields }];

    let schema = SearchSchema::default();
    let prepared = prepare_posts(posts, &schema);

    assert_eq!(prepared.len(), 1);
    let (post_id, body) = &prepared[0];

    assert_eq!(post_id.title, "Test Title");
    assert_eq!(post_id.url, "https://example.com");
    assert!(body.is_some());
    assert!(body.as_ref().unwrap().contains("Test Title"));
    assert!(body.as_ref().unwrap().contains("Test body content"));
    // the concatenation is trimmed: no trailing separator survives
    assert_eq!(body.as_ref().unwrap(), "Test Title Test body content");
}

#[test]
fn test_prepare_posts_custom_fields() {
    let post_fields = vec![
        ("product_name".to_string(), FieldValue::Text("Gaming Laptop".to_string())),
        (
            "description".to_string(),
            FieldValue::Text("High-performance gaming laptop".to_string()),
        ),
        (
            "product_url".to_string(),
            FieldValue::Text("https://example.com/laptop".to_string()),
        ),
        ("price".to_string(), FieldValue::Text("$1999.99".to_string())),
        ("brand".to_string(), FieldValue::Text("TechCorp".to_string())),
    ];

    let posts = vec![Post { fields: post_fields }];

    let schema = SearchSchema {
        indexed_fields: vec!["product_name".to_string(), "description".to_string()],
        metadata_fields: vec!["price".to_string(), "brand".to_string()],
        url_field: "product_url".to_string(),
    };

    let prepared = prepare_posts(posts, &schema);

    assert_eq!(prepared.len(), 1);
    let (post_id, indexed_content) = &prepared[0];

    // Check PostId structure
    assert_eq!(post_id.title, "Gaming Laptop"); // Title should be first indexed field
    assert_eq!(post_id.url, "https://example.com/laptop"); // URL from product_url field
    assert!(!post_id.meta.is_empty()); // Should have metadata
    assert!(post_id.meta.contains("$1999.99"));
    assert!(post_id.meta.contains("TechCorp"));

    // Check indexed content
    assert!(indexed_content.is_some());
    let content = indexed_content.as_ref().unwrap();
    assert!(content.contains("Gaming Laptop"));
    assert!(content.contains("High-performance gaming laptop"));
}

#[test]
fn prepare_posts_missing_url_field_gives_empty_url() {
    let posts = vec![Post {
        fields: vec![("title".to_string(), FieldValue::Text("No Url".to_string()))],
    }];
    let schema = SearchSchema::default();
    let prepared = prepare_posts(posts, &schema);
    assert_eq!(prepared.len(), 1);
    assert_eq!(prepared[0].0.url, "");
    assert_eq!(prepared[0].0.title, "No Url");
}
