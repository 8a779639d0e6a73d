use hg_core::config::{
    byte_size_unit, classify_line, parse_bool, parse_u32, parse_u64, trim, Config, ConfigError,
    ConfigLayer, ConfigLine, ConfigOrigin, ConfigValue, LayerParser, ParseStep,
};

fn file_origin() -> ConfigOrigin {
    ConfigOrigin::File(b"base.rc".to_vec())
}

/// Feeds the lines of `data` to a parser. An inclusion ends the layer at
/// hand; `included` stands for the layers of the included file.
fn parse(data: &[u8], included: &[u8]) -> Vec<ConfigLayer> {
    let mut layers = Vec::new();
    let mut parser = LayerParser::new(file_origin());
    for line in data.split(|&byte| byte == b'\n') {
        match parser.feed(line) {
            ParseStep::Next => {}
            ParseStep::Include(name) => {
                assert_eq!(name, b"included.rc".to_vec());
                let next = LayerParser {
                    layer: ConfigLayer::new(file_origin()),
                    section: parser.section.clone(),
                    line: parser.line,
                    open_item: false,
                };
                layers.push(std::mem::replace(&mut parser, next).layer);
                layers.extend(parse(included, b""));
            }
            ParseStep::Invalid => panic!("expected valid config"),
        }
    }
    layers.push(parser.layer);
    layers
}

#[test]
fn include_layer_ordering() {
    let data = b"[section]\nitem=value0\n%include included.rc\nitem=value2\n\
                 [section2]\ncount = 4\nsize = 1.5 KB\nnot-count = 1.5\nnot-size = 1 ub";
    let config = Config::from_layers(parse(data, b"[section]\nitem=value1"));

    let (_, value) = config.get_inner(b"section", b"item").unwrap();
    assert_eq!(value, &ConfigValue { bytes: b"value2".to_vec(), line: Some(4) });

    let value = config.get(b"section", b"item").unwrap();
    assert_eq!(value, b"value2");
    assert_eq!(
        config.get_all(b"section", b"item"),
        [&b"value2"[..], b"value1", b"value0"]
    );

    assert_eq!(config.get_u32(b"section2", b"count").unwrap(), Some(4));
    assert!(config.get_u32(b"section2", b"not-count").is_err());
    assert_eq!(config.get_str(b"section2", b"size").unwrap(), Some("1.5 KB"));
    assert_eq!(byte_size_unit(b"1.5 KB"), Some((2, 1024)));
    assert_eq!(byte_size_unit(b"1 ub"), Some((1, 1)));
    assert_eq!(config.get(b"nothing", b"item"), None);
    assert_eq!(config.get_u32(b"section", b"nothing").unwrap(), None);
}

#[test]
fn booleans() {
    for word in [&b"1"[..], b"yes", b"true", b"on", b"always", b"YES", b"True", b"oN"] {
        assert_eq!(parse_bool(word), Some(true));
    }
    for word in [&b"0"[..], b"no", b"false", b"off", b"never", b"NEVER", b"False"] {
        assert_eq!(parse_bool(word), Some(false));
    }
    for word in [&b""[..], b"2", b"y", b"yes ", b" no", b"ye\xc5\x9b"] {
        assert_eq!(parse_bool(word), None);
    }
}

#[test]
fn unsigned_numbers() {
    assert_eq!(parse_u32(b"0"), Some(0));
    assert_eq!(parse_u32(b"007"), Some(7));
    assert_eq!(parse_u32(b"+42"), Some(42));
    assert_eq!(parse_u32(b"4294967295"), Some(u32::MAX));
    assert_eq!(parse_u32(b"4294967296"), None);
    assert_eq!(parse_u64(b"4294967296"), Some(4294967296));
    assert_eq!(parse_u64(b"18446744073709551615"), Some(u64::MAX));
    assert_eq!(parse_u64(b"18446744073709551616"), None);
    assert_eq!(parse_u64(b"99999999999999999999999"), None);
    for text in [&b""[..], b"+", b"-1", b"1.5", b" 1", b"1 ", b"++1", b"1e3", b"0x10"] {
        assert_eq!(parse_u32(text), None);
        assert_eq!(parse_u64(text), None);
    }
}

#[test]
fn units_of_sizes() {
    assert_eq!(byte_size_unit(b"7g"), Some((1, 1 << 30)));
    assert_eq!(byte_size_unit(b"7 GB"), Some((2, 1 << 30)));
    assert_eq!(byte_size_unit(b"7m"), Some((1, 1 << 20)));
    assert_eq!(byte_size_unit(b"7Mb"), Some((2, 1 << 20)));
    assert_eq!(byte_size_unit(b"7k"), Some((1, 1 << 10)));
    assert_eq!(byte_size_unit(b"42.5 kb"), Some((2, 1 << 10)));
    assert_eq!(byte_size_unit(b"7b"), Some((1, 1)));
    assert_eq!(byte_size_unit(b"b"), Some((1, 1)));
    assert_eq!(byte_size_unit(b"30"), None);
    assert_eq!(byte_size_unit(b""), None);
    assert_eq!(byte_size_unit(b"7 kbs"), None);
}

#[test]
fn layers_by_precedence() {
    let mut low = ConfigLayer::new(ConfigOrigin::Environment(b"EDITOR".to_vec()));
    low.add(b"ui".to_vec(), b"editor".to_vec(), b"vi".to_vec(), None);
    low.add(b"ui".to_vec(), b"quiet".to_vec(), b"maybe".to_vec(), None);
    let mut high = ConfigLayer::new(ConfigOrigin::CommandLine);
    high.add(b"ui".to_vec(), b"editor".to_vec(), b"ed".to_vec(), None);
    // a later value replaces an earlier one
    high.add(b"ui".to_vec(), b"editor".to_vec(), b"emacs".to_vec(), None);
    let mut untrusted = ConfigLayer::new(file_origin());
    untrusted.trusted = false;
    untrusted.add(b"ui".to_vec(), b"editor".to_vec(), b"evil".to_vec(), Some(1));
    untrusted.add(b"ui".to_vec(), b"verbose".to_vec(), b"yes".to_vec(), Some(2));
    let config = Config::from_layers(vec![low, high, untrusted]);

    assert_eq!(config.get(b"ui", b"editor"), Some(&b"emacs"[..]));
    assert_eq!(config.get(b"ui", b"verbose"), None);
    assert_eq!(config.get_bool(b"ui", b"verbose").unwrap(), false);
    assert_eq!(config.get_option(b"ui", b"verbose").unwrap(), None);
    assert_eq!(
        config.get_all(b"ui", b"editor"),
        [&b"evil"[..], b"emacs", b"vi"]
    );
    let (layer, value) = config.get_inner(b"ui", b"editor").unwrap();
    assert!(layer.is_from_command_line());
    assert_eq!(value.line, None);
    match config.get_bool(b"ui", b"quiet") {
        Err(ConfigError::Parse(error)) => {
            assert_eq!(error.bytes, b"maybe".to_vec());
            assert_eq!(error.line, None);
            assert!(matches!(error.origin, ConfigOrigin::Environment(_)));
        }
        other => panic!("expected a parse error, got {:?}", other),
    }
    assert_eq!(config.get_parse(b"ui", b"editor", |bytes| Some(bytes.len())).unwrap(), Some(5));
    assert!(config.get_parse(b"ui", b"editor", |_| None::<u8>).is_err());
}

#[test]
fn text_values() {
    let mut layer = ConfigLayer::new(ConfigOrigin::CommandLine);
    layer.add(b"a".to_vec(), b"text".to_vec(), "gr\u{fc}n".as_bytes().to_vec(), None);
    layer.add(b"a".to_vec(), b"bytes".to_vec(), vec![b'g', 0xfc, b'n'], None);
    let config = Config::from_layers(vec![layer]);
    assert_eq!(config.get_str(b"a", b"text").unwrap(), Some("gr\u{fc}n"));
    assert!(config.get_str(b"a", b"bytes").is_err());
    assert_eq!(config.get_str(b"a", b"nothing").unwrap(), None);
}

#[test]
fn trimming() {
    assert_eq!(trim(b"  a b \t\r"), b"a b".to_vec());
    assert_eq!(trim(b"a"), b"a".to_vec());
    assert_eq!(trim(b" \t "), Vec::<u8>::new());
    assert_eq!(trim(b""), Vec::<u8>::new());
}

#[test]
fn kinds_of_lines() {
    assert_eq!(classify_line(b""), ConfigLine::Blank);
    assert_eq!(classify_line(b"   \t"), ConfigLine::Blank);
    assert_eq!(classify_line(b"# comment"), ConfigLine::Blank);
    assert_eq!(classify_line(b"; a = b"), ConfigLine::Blank);
    assert_eq!(classify_line(b"[ui]"), ConfigLine::Section(b"ui".to_vec()));
    assert_eq!(classify_line(b"[ui] trailing"), ConfigLine::Section(b"ui".to_vec()));
    assert_eq!(classify_line(b"[]"), ConfigLine::Invalid);
    assert_eq!(classify_line(b"[a[b]"), ConfigLine::Invalid);
    assert_eq!(
        classify_line(b"name = some value  "),
        ConfigLine::Item { name: b"name".to_vec(), value: b"some value".to_vec() }
    );
    assert_eq!(
        classify_line(b"a=b=c"),
        ConfigLine::Item { name: b"a".to_vec(), value: b"b=c".to_vec() }
    );
    assert_eq!(
        classify_line(b"empty ="),
        ConfigLine::Item { name: b"empty".to_vec(), value: Vec::new() }
    );
    assert_eq!(classify_line(b"=value"), ConfigLine::Invalid);
    assert_eq!(classify_line(b"  more text "), ConfigLine::Continuation(b"more text".to_vec()));
    assert_eq!(classify_line(b"%include  other.rc "), ConfigLine::Include(b"other.rc".to_vec()));
    assert_eq!(classify_line(b"%include"), ConfigLine::Invalid);
    assert_eq!(classify_line(b"%unset name rest"), ConfigLine::Unset(b"name".to_vec()));
    assert_eq!(classify_line(b"%unset"), ConfigLine::Invalid);
    assert_eq!(classify_line(b"no equals sign"), ConfigLine::Invalid);
}

#[test]
fn parser_continues_and_unsets() {
    let mut parser = LayerParser::new(file_origin());
    assert_eq!(parser.feed(b"[s]"), ParseStep::Next);
    assert_eq!(parser.feed(b"a = first"), ParseStep::Next);
    assert_eq!(parser.feed(b"# a comment in between"), ParseStep::Next);
    assert_eq!(parser.feed(b"  second"), ParseStep::Next);
    assert_eq!(parser.feed(b"b = 1"), ParseStep::Next);
    assert_eq!(parser.feed(b""), ParseStep::Next);
    assert_eq!(parser.feed(b"  dangling"), ParseStep::Invalid);
    assert_eq!(parser.feed(b"%unset b"), ParseStep::Next);
    assert_eq!(parser.feed(b"%include x"), ParseStep::Include(b"x".to_vec()));
    assert_eq!(parser.feed(b"what"), ParseStep::Invalid);
    assert_eq!(parser.line, 10);
    let value = parser.layer.get(b"s", b"a").unwrap();
    assert_eq!(value, &ConfigValue { bytes: b"first\nsecond".to_vec(), line: Some(2) });
    assert_eq!(parser.layer.get(b"s", b"b"), None);
    assert_eq!(parser.layer.items.len(), 1);
}

#[test]
fn command_line_arguments() {
    assert!(matches!(ConfigLayer::parse_cli_args(&vec![]), Ok(None)));
    let layer = ConfigLayer::parse_cli_args(&vec![
        b"ui.editor = vi ".to_vec(),
        b" pager.pager=less -R".to_vec(),
        b"a.b.c=d".to_vec(),
    ])
    .unwrap()
    .unwrap();
    assert!(layer.is_from_command_line());
    assert_eq!(layer.get(b"ui", b"editor").unwrap().bytes, b"vi".to_vec());
    assert_eq!(layer.get(b"pager", b"pager").unwrap().bytes, b"less -R".to_vec());
    assert_eq!(layer.get(b"a", b"b.c").unwrap().bytes, b"d".to_vec());
    match ConfigLayer::parse_cli_args(&vec![b"a.b=c".to_vec(), b"nodot=1".to_vec()]) {
        Err(ConfigError::Parse(error)) => assert_eq!(error.bytes, b"nodot=1".to_vec()),
        other => panic!("expected a parse error, got {:?}", other),
    }
    assert!(ConfigLayer::parse_cli_args(&vec![b"a.b".to_vec()]).is_err());
}

#[test]
fn repository_layers_go_before_the_command_line() {
    let named = |origin: ConfigOrigin, value: &[u8]| {
        let mut layer = ConfigLayer::new(origin);
        layer.add(b"s".to_vec(), b"i".to_vec(), value.to_vec(), None);
        layer
    };
    let config = Config::from_layers(vec![
        named(file_origin(), b"system"),
        named(ConfigOrigin::CommandLine, b"cli"),
        named(ConfigOrigin::Environment(b"X".to_vec()), b"env"),
    ]);
    let combined = config.combine_with_repo(vec![named(file_origin(), b"repo")]);
    assert_eq!(
        combined.get_all(b"s", b"i"),
        [&b"cli"[..], b"repo", b"env", b"system"]
    );
    assert_eq!(combined.get(b"s", b"i"), Some(&b"cli"[..]));
    assert_eq!(config.layers.len(), 3);
}
