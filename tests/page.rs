use stewball::page::{ComplexMessage, IndexHtmlTemplate, IndexJsonTemplate};

#[test]
fn html_template_test() {
    let tpl = IndexHtmlTemplate {
        messages: vec![b"foo".to_vec(), b"bar".to_vec()],
        title: b"sup".to_vec(),
    };

    let mut buffer: Vec<u8> = Vec::with_capacity(200);
    println!("{}", buffer.len());
    tpl.render_once_to(&mut buffer);
    println!("{}", buffer.len());

    let page = String::from_utf8(buffer).unwrap();
    println!("{}", page);
    assert_eq!(
        page,
        "<!DOCTYPE html><html><head><title>sup</title></head><body><ul><li>foo</li><li>bar</li></ul></body></html>"
    );
}

#[test]
fn json_template_test() {
    let tpl = IndexJsonTemplate {
        messages: vec![
            ComplexMessage { text: b"foo".to_vec(), other: 0 },
            ComplexMessage { text: b"bar".to_vec(), other: 1 },
        ],
    };

    let mut buffer: Vec<u8> = Vec::with_capacity(200);
    println!("{}", buffer.len());
    tpl.render_once_to(&mut buffer);
    println!("{}", buffer.len());

    let page = String::from_utf8(buffer).unwrap();
    println!("{}", page);
    assert_eq!(page, r#"[{"text":"foo","other":0},{"text":"bar","other":1}]"#);
}

#[test]
fn html_escapes_markup() {
    let tpl = IndexHtmlTemplate { messages: vec![b"<a href='x'>&\"".to_vec()], title: vec![] };
    let mut buffer = Vec::new();
    tpl.render_once_to(&mut buffer);
    let page = String::from_utf8(buffer).unwrap();
    assert!(page.contains("<li>&lt;a href=&#39;x&#39;&gt;&amp;&quot;</li>"));
}

#[test]
fn json_escapes_strings() {
    let tpl = IndexJsonTemplate {
        messages: vec![ComplexMessage { text: b"a\"b\\c\n".to_vec(), other: 255 }],
    };
    let mut buffer = Vec::new();
    tpl.render_once_to(&mut buffer);
    assert_eq!(String::from_utf8(buffer).unwrap(), r#"[{"text":"a\"b\\c\u000a","other":255}]"#);
    let empty = IndexJsonTemplate { messages: vec![] };
    let mut buffer = Vec::new();
    empty.render_once_to(&mut buffer);
    assert_eq!(buffer, b"[]".to_vec());
}
