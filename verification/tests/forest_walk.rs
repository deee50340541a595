use tuxdrive::error::TuxDriveError;
use tuxdrive::forest::{
    DfsFuncBehaviour, DfsMutInfo, DfsVisitor, NewPath, PathForest, RecursiveBehaviour,
};
use tuxdrive::forest::shown::PathCollector;
use tuxdrive::forest::walk::Step;
use tuxdrive::path::AbsPath;
use vstd::seq::Seq;
use vstd::view::View;

fn p(text: &str) -> AbsPath {
    AbsPath::from_bytes(text.as_bytes()).unwrap()
}

/// Answers by the last component of the path, counts in the payload how
/// often a node was seen, and notes the order of the visits.
struct Scripted {
    seen: Vec<(AbsPath, Vec<AbsPath>, bool)>,
}

impl View for Scripted {
    type V = ();

    // Stands for the model in proofs only, and is never called.
    fn view(&self) {
        unreachable!()
    }
}

impl DfsVisitor<u32> for Scripted {
    // Stands for the visit in proofs only, and is never called.
    fn step(
        _model: (),
        _path: Seq<Seq<u8>>,
        _children: Seq<Seq<Seq<u8>>>,
        _info: u32,
        _is_dir: bool,
    ) -> Step<(), u32> {
        unreachable!()
    }

    fn visit(
        &mut self,
        path: &AbsPath,
        node: DfsMutInfo<'_, u32>,
    ) -> Result<DfsFuncBehaviour, TuxDriveError> {
        *node.info += 1;
        self.seen.push((path.clone(), node.children_paths, node.is_dir));
        let name = match path.file_name() {
            Some(name) => name.clone(),
            None => Vec::new(),
        };
        match name.as_slice() {
            b"stop" => Ok(DfsFuncBehaviour::Stop),
            b"delete" => Ok(DfsFuncBehaviour::Delete),
            b"grow" => Ok(DfsFuncBehaviour::AddAndContinue(vec![
                NewPath { path: path.join(&b"new_file".to_vec()), is_dir: false },
                NewPath { path: path.join(&b"new_dir".to_vec()), is_dir: true },
            ])),
            b"graft" => Ok(DfsFuncBehaviour::AddAndStop(vec![NewPath {
                path: path.join(&b"twig".to_vec()),
                is_dir: false,
            }])),
            b"fail" => Err(TuxDriveError::NixError(5)),
            _ => Ok(DfsFuncBehaviour::Continue),
        }
    }
}

fn visited(visitor: &Scripted) -> Vec<AbsPath> {
    visitor.seen.iter().map(|(path, _, _)| path.clone()).collect()
}

#[test]
fn walk_is_preorder_and_obeys_the_directives() {
    let mut forest: PathForest<u32> = PathForest::new();
    let root = p("/r");
    forest.add_path(&root, &p("/r/a/x"), 0, false);
    forest.add_path(&root, &p("/r/stop/hidden"), 0, false);
    forest.add_path(&root, &p("/r/delete/lost"), 0, false);
    forest.add_path(&root, &p("/r/grow/old"), 0, false);
    forest.add_path(&root, &p("/r/graft/old"), 0, false);
    let mut visitor = Scripted { seen: Vec::new() };
    assert_eq!(forest.dfs_mut(&mut visitor), Ok(()));
    assert_eq!(
        visited(&visitor),
        vec![
            p("/r"),
            p("/r/a"),
            p("/r/a/x"),
            p("/r/stop"),
            p("/r/delete"),
            p("/r/grow"),
            p("/r/grow/old"),
            p("/r/graft"),
        ]
    );
    assert_eq!(
        visitor.seen[0].1,
        vec![p("/r/a"), p("/r/stop"), p("/r/delete"), p("/r/grow"), p("/r/graft")]
    );
    assert!(visitor.seen[0].2);
    assert!(!visitor.seen[2].2);
    // the payload of every visited node was changed, and of no other
    assert_eq!(forest.lookup(&root, &p("/r/a/x")), Some((&1, false)));
    assert_eq!(forest.lookup(&root, &p("/r/stop")), Some((&1, true)));
    assert_eq!(forest.lookup(&root, &p("/r/stop/hidden")), Some((&0, false)));
    // a deleted node is gone with all below it
    assert_eq!(forest.lookup(&root, &p("/r/delete")), None);
    assert_eq!(forest.lookup(&root, &p("/r/delete/lost")), None);
    // new children have the default payload and were not visited
    assert_eq!(forest.lookup(&root, &p("/r/grow/new_file")), Some((&0, false)));
    assert_eq!(forest.lookup(&root, &p("/r/grow/new_dir")), Some((&0, true)));
    assert_eq!(forest.lookup(&root, &p("/r/grow/old")), Some((&1, false)));
    assert_eq!(forest.lookup(&root, &p("/r/graft/twig")), Some((&0, false)));
    assert_eq!(forest.lookup(&root, &p("/r/graft/old")), Some((&0, false)));
}

#[test]
fn first_error_ends_the_walk() {
    let mut forest: PathForest<u32> = PathForest::new();
    let root = p("/r");
    forest.add_path(&root, &p("/r/a"), 0, false);
    forest.add_path(&root, &p("/r/fail/below"), 0, false);
    forest.add_path(&root, &p("/r/z"), 0, false);
    let mut visitor = Scripted { seen: Vec::new() };
    assert_eq!(forest.dfs_mut(&mut visitor), Err(TuxDriveError::NixError(5)));
    assert_eq!(visited(&visitor), vec![p("/r"), p("/r/a"), p("/r/fail")]);
    assert_eq!(forest.lookup(&root, &p("/r/z")), Some((&0, false)));
    assert_eq!(forest.lookup(&root, &p("/r/fail/below")), Some((&0, false)));
}

#[test]
fn tree_whose_root_is_deleted_is_dropped() {
    let mut forest: PathForest<u32> = PathForest::new();
    forest.add_path(&p("/keep"), &p("/keep/a"), 0, false);
    forest.add_path(&p("/delete"), &p("/delete/a"), 0, false);
    forest.add_path(&p("/also"), &p("/also"), 7, true);
    let mut visitor = Scripted { seen: Vec::new() };
    assert_eq!(forest.dfs_mut(&mut visitor), Ok(()));
    assert_eq!(forest.roots(), vec![p("/keep"), p("/also")]);
    assert_eq!(visited(&visitor), vec![p("/keep"), p("/keep/a"), p("/delete"), p("/also")]);
    assert_eq!(forest.lookup(&p("/also"), &p("/also")), Some((&8, true)));
}

#[test]
fn single_tree_can_be_walked() {
    let mut forest: PathForest<u32> = PathForest::new();
    forest.add_path(&p("/one"), &p("/one/a"), 0, false);
    forest.add_path(&p("/two"), &p("/two/b"), 0, false);
    let mut visitor = Scripted { seen: Vec::new() };
    assert_eq!(forest.dfs_tree(&p("/two"), &mut visitor), Ok(()));
    assert_eq!(visited(&visitor), vec![p("/two"), p("/two/b")]);
    assert_eq!(forest.dfs_tree(&p("/three"), &mut visitor), Ok(()));
    assert_eq!(visitor.seen.len(), 2);
    let trees = forest.trees_mut();
    assert_eq!(trees.len(), 2);
    assert_eq!(trees[0].dfs_mut(&mut visitor), Ok(RecursiveBehaviour::Nothing));
    assert_eq!(visitor.seen.len(), 4);
}

#[test]
fn collector_is_shown_every_held_path_once() {
    let mut forest: PathForest<u32> = PathForest::new();
    let root = p("/r");
    forest.add_path(&root, &p("/r/a/x/deep"), 0, false);
    forest.add_path(&root, &p("/r/b"), 0, false);
    forest.add_path(&root, &p("/r/a/y"), 0, false);
    forest.add_path(&root, &p("/r/a/x"), 0, true);
    let mut collector = PathCollector::new();
    assert_eq!(forest.dfs_mut(&mut collector), Ok(()));
    let shown = collector.finish();
    let expected =
        vec![p("/r"), p("/r/a"), p("/r/a/x"), p("/r/a/x/deep"), p("/r/a/y"), p("/r/b")];
    assert_eq!(shown, expected);
    for path in expected.iter() {
        assert!(forest.lookup(&root, path).is_some());
    }
}
