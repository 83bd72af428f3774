use table::json::JSON;
use table::mem_table::{opt_ref, JSONRow, MemTable, TableObserver};

struct Recorder {
    seen: Vec<(i64, Option<usize>, Option<usize>)>,
}

impl TableObserver for Recorder {
    fn update(&mut self, key: i64, old: Option<&JSONRow>, new: Option<&JSONRow>) {
        self.seen.push((key, old.map(|row| row.len()), new.map(|row| row.len())));
    }
}

struct Count<'a> {
    count: &'a std::cell::Cell<usize>,
}

impl<'a> TableObserver for Count<'a> {
    fn update(&mut self, _key: i64, _old: Option<&JSONRow>, _new: Option<&JSONRow>) {
        self.count.set(self.count.get() + 1);
    }
}

#[test]
fn mem_table_tells_its_observer() {
    let count = std::cell::Cell::new(0);
    let mut t = MemTable::new(Count { count: &count });
    assert!(t.get(&1).is_none());
    let row: JSONRow = vec![("a".to_string(), JSON::Int(1))];
    assert!(t.insert(1, row).is_none());
    assert_eq!(count.get(), 1);
    let longer: JSONRow = vec![("a".to_string(), JSON::Int(1)), ("b".to_string(), JSON::Null)];
    let before = t.insert(1, longer).unwrap();
    assert_eq!(before.len(), 1);
    assert_eq!(count.get(), 2);
    assert_eq!(t.get(&1).unwrap().len(), 2);
    assert!(t.get(&2).is_none());

    let mut r = MemTable::new(Recorder { seen: Vec::new() });
    r.insert(7, Vec::new());
    let _ = r;
}

#[test]
fn opt_ref_borrows_the_content() {
    let some = Some(5);
    let none: Option<i32> = None;
    assert_eq!(opt_ref(&some), Some(&5));
    assert_eq!(opt_ref(&none), None);
}
