use xandikos::index::{Filter, IndexDict, IndexKey, IndexValue, IndexValueElement, IndexableFile};
use xandikos::store::{describe_change, Error, File};
use xandikos::string_map::StringMap;
use xandikos::text::is_whitespace;

struct Note {
    lines: Vec<Vec<u8>>,
    uid: Option<String>,
}

impl File for Note {
    fn content_type(&self) -> &str {
        "text/x-note"
    }

    fn content(&self) -> &[Vec<u8>] {
        &self.lines
    }

    fn validate(&self) -> Result<(), Error> {
        if self.lines.is_empty() {
            Err(Error::InvalidFileContents)
        } else {
            Ok(())
        }
    }

    fn normalized(&self) -> Vec<Vec<u8>> {
        self.lines.clone()
    }

    fn describe(&self, name: &str) -> String {
        format!("note {}", name)
    }

    fn get_uid(&self) -> Result<String, Error> {
        self.uid.clone().ok_or(Error::NoUID)
    }
}

impl IndexableFile for Note {
    fn get_index(&self, key: &IndexKey) -> IndexValue {
        if key == "P=EMPTY" {
            vec![IndexValueElement::Bool(self.lines.is_empty())]
        } else {
            self.lines
                .iter()
                .map(|line| IndexValueElement::Bytes(line.clone()))
                .collect()
        }
    }
}

struct HasLines;

impl Filter for HasLines {
    fn content_type() -> &'static str {
        "text/x-note"
    }

    fn check(&self, _name: &str, resource: &dyn File) -> bool {
        !resource.content().is_empty()
    }

    fn index_keys(&self) -> Vec<IndexKey> {
        vec!["P=EMPTY".to_string()]
    }

    fn check_from_indexes(&self, _name: &str, indexes: IndexDict) -> bool {
        match indexes.get("P=EMPTY") {
            Some(value) => matches!(value.first(), Some(IndexValueElement::Bool(false))),
            None => false,
        }
    }
}

fn note() -> Note {
    Note {
        lines: vec![b"one".to_vec(), b"two".to_vec()],
        uid: Some("uid-1".to_string()),
    }
}

#[test]
fn describe_change_tells_of_an_addition_or_a_modification() {
    assert_eq!(describe_change("x.ics", true), vec!["Added x.ics".to_string()]);
    assert_eq!(describe_change("x.ics", false), vec!["Modified x.ics".to_string()]);
    assert_eq!(describe_change("", true), vec!["Added ".to_string()]);
}

#[test]
fn describe_delta_goes_by_whether_there_was_a_previous_file() {
    let current = note();
    let previous = note();
    assert_eq!(
        current.describe_delta("a.txt", None),
        vec!["Added note a.txt".to_string()]
    );
    assert_eq!(
        current.describe_delta("a.txt", Some(&previous)),
        vec!["Modified note a.txt".to_string()]
    );
}

#[test]
fn file_reports_its_errors() {
    let empty = Note { lines: Vec::new(), uid: None };
    assert_eq!(empty.validate(), Err(Error::InvalidFileContents));
    assert_eq!(empty.get_uid(), Err(Error::NoUID));
    assert_eq!(note().validate(), Ok(()));
    assert_eq!(note().get_uid(), Ok("uid-1".to_string()));
}

#[test]
fn get_indexes_maps_each_key_to_its_index() {
    let file = note();
    let indexes = file.get_indexes(vec![
        "C=LINES".to_string(),
        "P=EMPTY".to_string(),
        "C=LINES".to_string(),
    ]);
    assert_eq!(indexes.len(), 2);
    assert!(matches!(
        indexes.get("P=EMPTY").unwrap().as_slice(),
        [IndexValueElement::Bool(false)]
    ));
    assert_eq!(indexes.get("C=LINES").unwrap().len(), 2);
    assert!(indexes.get("C=OTHER").is_none());
    let keys = indexes
        .into_entries()
        .into_iter()
        .map(|entry| entry.0)
        .collect::<Vec<_>>();
    assert_eq!(keys, vec!["C=LINES".to_string(), "P=EMPTY".to_string()]);
}

#[test]
fn filter_checks_a_file_and_its_indexes_alike() {
    let filter = HasLines;
    let file = note();
    assert_eq!(HasLines::content_type(), file.content_type());
    assert!(filter.check("a.txt", &file));
    assert!(filter.check_from_indexes("a.txt", file.get_indexes(filter.index_keys())));
    assert!(!filter.check_from_indexes("a.txt", StringMap::new()));
}

#[test]
fn string_map_keeps_the_last_value_of_a_key() {
    let mut map: StringMap<String> = StringMap::new();
    assert!(map.is_empty());
    map.insert("a".to_string(), "1".to_string());
    map.insert("b".to_string(), "2".to_string());
    map.insert("a".to_string(), "3".to_string());
    assert_eq!(map.len(), 2);
    assert!(map.contains_key("a"));
    assert!(!map.contains_key("c"));
    assert_eq!(map.get("a").unwrap(), "3");
    assert_eq!(map.get("b").unwrap(), "2");
    assert!(map.get("c").is_none());
    assert_eq!(
        map.into_entries(),
        vec![("a".to_string(), "3".to_string()), ("b".to_string(), "2".to_string())]
    );
}

#[test]
fn is_whitespace_knows_the_white_space_characters() {
    for c in [' ', '\t', '\n', '\u{0B}', '\u{0C}', '\r', '\u{85}', '\u{A0}', '\u{1680}', '\u{2000}', '\u{200A}', '\u{2028}', '\u{2029}', '\u{202F}', '\u{205F}', '\u{3000}'] {
        assert!(is_whitespace(c));
        assert!(c.is_whitespace());
    }
    for c in ['a', '0', ';', '=', ',', '\u{08}', '\u{0E}', '\u{1F}', '\u{200B}', '\u{180E}', '\u{FEFF}'] {
        assert!(!is_whitespace(c));
        assert!(!c.is_whitespace());
    }
}
