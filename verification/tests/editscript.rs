//! The library's edit script against the reference algorithm, run by an
//! outside implementation on the same sequences.

use diffs::Diff;
use json_diff::json::JsonVal;
use json_diff::myers;

struct Collector {
    replaced: Vec<(usize, usize, usize, usize)>,
    deletion: Vec<(usize, usize)>,
    insertion: Vec<(usize, usize)>,
}

impl Diff for Collector {
    type Error = ();
    fn delete(&mut self, old: usize, len: usize, _new: usize) -> Result<(), ()> {
        self.deletion.push((old, len));
        Ok(())
    }
    fn insert(&mut self, _o: usize, new: usize, len: usize) -> Result<(), ()> {
        self.insertion.push((new, len));
        Ok(())
    }
    fn replace(&mut self, old: usize, len: usize, new: usize, new_len: usize) -> Result<(), ()> {
        self.replaced.push((old, len, new, new_len));
        Ok(())
    }
}

fn reference_runs(
    a: &[&str],
    b: &[&str],
) -> (
    Vec<(usize, usize, usize, usize)>,
    Vec<(usize, usize)>,
    Vec<(usize, usize)>,
) {
    let mut d = diffs::Replace::new(Collector {
        replaced: Vec::new(),
        deletion: Vec::new(),
        insertion: Vec::new(),
    });
    diffs::myers::diff(&mut d, a, 0, a.len(), b, 0, b.len()).unwrap();
    let c = d.into_inner();
    (c.replaced, c.deletion, c.insertion)
}

fn library_runs(
    a: &[&str],
    b: &[&str],
) -> (
    Vec<(usize, usize, usize, usize)>,
    Vec<(usize, usize)>,
    Vec<(usize, usize)>,
) {
    let av: Vec<JsonVal> = a.iter().map(|s| JsonVal::Str(String::from(*s))).collect();
    let bv: Vec<JsonVal> = b.iter().map(|s| JsonVal::Str(String::from(*s))).collect();
    let mut d = myers::Replace::new();
    myers::myers_diff(&mut d, &av, 0, av.len(), &bv, 0, bv.len());
    (d.d.replaced, d.d.deletion, d.d.insertion)
}

fn check_same(a: &[&str], b: &[&str]) {
    assert_eq!(reference_runs(a, b), library_runs(a, b), "runs differ for {:?} vs {:?}", a, b);
}

#[test]
fn edit_scripts_match_reference() {
    check_same(&[], &[]);
    check_same(&["a"], &[]);
    check_same(&[], &["a"]);
    check_same(&["a", "b", "c"], &["a", "b", "c"]);
    check_same(&["a", "b", "c"], &["a", "b", "d"]);
    check_same(&["a", "b", "c"], &["a", "a", "b", "d"]);
    check_same(&["a", "b", "c"], &["a", "b"]);
    check_same(&["a", "b"], &["a", "b", "c"]);
    check_same(&["a", "b", "a"], &["a", "c", "c", "c", "a"]);
    check_same(&["x", "y", "z"], &["p", "q"]);
    check_same(&["a", "x", "b", "y"], &["x", "b", "y", "a"]);
    check_same(
        &["1", "2", "3", "4", "5", "6"],
        &["2", "4", "6", "8", "10"],
    );
}
