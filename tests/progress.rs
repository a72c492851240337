use gridpuzzles::progress::ShapesStatus;
use gridpuzzles::progress::SolverProgress;
use gridpuzzles::progress::SolverProgressState;

#[test]
fn enter_and_leave() {
    let shapes = vec!["a", "b", "c"];
    let mut progress = SolverProgress::new(SolverProgressState::new(ShapesStatus::of(&shapes)));
    assert!(!progress.finish());
    assert_eq!(&vec![false, false, false], progress.shapes_used());
    progress.enter(1);
    assert_eq!(&vec![false, true, false], progress.shapes_used());
    progress.incr();
    progress.incr();
    progress.incr_pruned();
    assert_eq!(2, progress.count());
    assert_eq!(1, progress.pruned());
    progress.enter(0);
    progress.enter(2);
    assert!(progress.finish());
    progress.leave();
    progress.leave();
    progress.leave();
    assert_eq!(&vec![false, false, false], progress.shapes_used());
    assert!(!progress.finish());
    assert_eq!(2, progress.count());
}
