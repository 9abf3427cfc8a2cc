use raytracer::raytracing::raytracer::RaytracerState;
use raytracer::raytracing::texture::get_wrapped_coordinate;
use raytracer::raytracing::texture::TextureWrapMode;
use raytracer::raytracing::work::generator::GenerationMode;
use raytracer::raytracing::work::generator::RaytracingWorkGenerator;
use raytracer::raytracing::work::RaytracingWork;
use raytracer::raytracing::CellEvaluator;
use raytracer::raytracing::RaytracingResult;
use raytracer::raytracing::RaytracingWorker;
use raytracer::workers::attempt_to_result;
use raytracer::workers::keep_result;
use raytracer::workers::message_to_result;
use raytracer::workers::orders_to_end;
use raytracer::workers::work_message;
use raytracer::workers::sent_to_result;
use raytracer::workers::some_waiting;
use raytracer::workers::Attempt;
use raytracer::workers::Work;
use raytracer::workers::WorkContext;
use raytracer::workers::WorkerLink;
use raytracer::workers::Workers;

#[derive(Clone)]
struct Numbered;

impl WorkContext for Numbered {}

impl CellEvaluator for Numbered {
    type Value = u64;

    fn evaluate_cell(&self, x: u32, y: u32) -> u64 {
        (y as u64) * 1000 + (x as u64)
    }
}

type Pool = Workers<Numbered, RaytracingWork, RaytracingResult<u64>>;
type Link = WorkerLink<Numbered, RaytracingWork, RaytracingResult<u64>>;

fn run_worker(mut link: Link) {
    let mut worker = RaytracingWorker::default();
    loop {
        match link.receive_work() {
            None => return,
            Some(unit) => {
                if !worker.work_off(unit, &mut link) {
                    return;
                }
            },
        }
    }
}

#[test]
fn pool_takes_work_only_while_it_runs() {
    let mut pool = Pool::create(Numbered);
    assert!(!pool.is_running());
    assert_eq!(pool.add_work(RaytracingWork::pixel(0, 0)), Err(()));
    assert_eq!(pool.shut_down(), Err(()));
    let links = pool.spin_up(Some(2)).unwrap();
    assert_eq!(links.len(), 2);
    assert!(pool.is_running());
    assert!(pool.spin_up(Some(2)).is_err());
    assert_eq!(pool.add_work(RaytracingWork::pixel(0, 0)), Ok(()));
    assert_eq!(pool.shut_down(), Ok(()));
    assert!(!pool.is_running());
    assert_eq!(pool.add_work(RaytracingWork::pixel(0, 0)), Err(()));
    assert_eq!(pool.shut_down(), Err(()));
    assert!(pool.spin_up(Some(2)).is_err());
}

#[test]
fn pool_without_results_gives_none() {
    let mut pool = Pool::create(Numbered);
    assert!(pool.collect_finished().is_empty());
    assert!(!pool.has_results());
    assert_eq!(pool.try_receive_result(), Ok(None));
    let links = pool.spin_up(Some(1)).unwrap();
    assert_eq!(links.len(), 1);
    assert!(pool.collect_finished().is_empty());
    assert_eq!(pool.shut_down(), Ok(()));
    assert!(pool.collect_finished().is_empty());
}

#[test]
fn pool_starts_one_worker_for_each_core() {
    let mut pool = Pool::create(Numbered);
    let links = pool.spin_up(None).unwrap();
    assert!(links.len() >= 1);
}

#[test]
fn each_worker_is_told_to_end_once() {
    let mut pool = Pool::create(Numbered);
    let links = pool.spin_up(Some(3)).unwrap();
    assert_eq!(pool.add_work(RaytracingWork::line(0, 0, 2, false)), Ok(()));
    assert_eq!(pool.shut_down(), Ok(()));
    let mut units = 0;
    let mut ends = 0;
    for link in links.iter() {
        loop {
            match link.receive_work() {
                Some(_) => units += 1,
                None => {
                    ends += 1;
                    break;
                },
            }
        }
    }
    assert_eq!(units, 1);
    assert_eq!(ends, 3);
}

#[test]
fn results_come_as_they_are_produced() {
    let mut pool = Pool::create(Numbered);
    let mut links = pool.spin_up(Some(1)).unwrap();
    let mut link = links.pop().unwrap();
    let mut worker = RaytracingWorker::default();
    assert!(worker.work_off(RaytracingWork::line(4, 2, 3, true), &mut link));
    assert!(pool.has_results());
    assert_eq!(
        pool.try_receive_result(),
        Ok(Some(RaytracingResult { x: 6, y: 2, pixel_color: 2006 }))
    );
    assert_eq!(
        pool.receive_result(),
        Ok(RaytracingResult { x: 5, y: 2, pixel_color: 2005 })
    );
    assert_eq!(
        pool.collect_finished(),
        vec![RaytracingResult { x: 4, y: 2, pixel_color: 2004 }]
    );
    assert!(pool.collect_finished().is_empty());
    assert!(worker.current_task_state.is_none());
}

#[test]
fn four_by_four_grid_on_two_threads() {
    let mut pool = Pool::create(Numbered);
    let links = pool.spin_up(Some(2)).unwrap();
    let mut results = vec![];
    crossbeam::scope(|scope| {
        for link in links {
            scope.spawn(move |_| run_worker(link));
        }
        let work = GenerationMode::PixelRandom.to_work(4, 4);
        assert_eq!(work.len(), 16);
        for unit in work {
            assert_eq!(pool.add_work(unit), Ok(()));
        }
        while results.len() < 16 {
            results.append(&mut pool.collect_finished());
        }
        assert_eq!(pool.shut_down(), Ok(()));
    })
    .unwrap();
    assert!(pool.collect_finished().is_empty());
    assert_eq!(results.len(), 16);
    let mut seen = vec![false; 16];
    for result in results.iter() {
        assert!(result.x < 4 && result.y < 4);
        assert_eq!(result.pixel_color, (result.y as u64) * 1000 + (result.x as u64));
        let index = (result.y * 4 + result.x) as usize;
        assert!(!seen[index]);
        seen[index] = true;
    }
}

#[test]
fn generator_fills_a_running_pool() {
    let generator = RaytracingWorkGenerator {
        width: 5,
        height: 3,
        generation_mode: GenerationMode::Line {
            reverse_order_horizontal: false,
            random_order_vertical: false,
            transparent: false,
        },
    };
    let mut pool = Pool::create(Numbered);
    assert_eq!(generator.generate(&mut pool), Err(()));
    let links = pool.spin_up(Some(2)).unwrap();
    assert_eq!(generator.generate(&mut pool), Ok(()));
    assert_eq!(pool.shut_down(), Ok(()));
    assert_eq!(generator.generate(&mut pool), Err(()));
    for link in links {
        run_worker(link);
    }
    let results = pool.collect_finished();
    assert_eq!(results.len(), 15);
    assert_eq!(results[0], RaytracingResult { x: 0, y: 0, pixel_color: 0 });
    assert_eq!(results[14], RaytracingResult { x: 4, y: 2, pixel_color: 2004 });
}

#[test]
fn generator_of_an_empty_grid_adds_nothing() {
    let generator = RaytracingWorkGenerator {
        width: 0,
        height: 3,
        generation_mode: GenerationMode::PixelRandom,
    };
    let mut pool = Pool::create(Numbered);
    assert_eq!(generator.generate(&mut pool), Ok(()));
}

#[test]
fn what_a_worker_does_on_a_message() {
    assert!(Link::work_of(None).is_none());
    assert!(Link::work_of(Some(Work::Close)).is_none());
    match Link::work_of(Some(Work::Work(RaytracingWork::pixel(1, 2)))) {
        Some(mut unit) => assert_eq!(unit.get_next_work_pixel(), Some((1, 2))),
        None => panic!("the unit was expected"),
    }
}

#[test]
fn what_an_attempt_comes_to() {
    assert_eq!(attempt_to_result(Attempt::Message(5u8)), Ok(Some(5u8)));
    assert_eq!(attempt_to_result(Attempt::<u8>::Empty), Ok(None));
    assert_eq!(attempt_to_result(Attempt::<u8>::Disconnected), Err(()));
}

#[test]
fn rendering_counts_its_results() {
    let state = RaytracerState::started(4, 3);
    assert_eq!(state, RaytracerState::Running { commissioned: 12, completed: 0 });
    assert!(state.is_running());
    let state = state.update(0);
    assert_eq!(state, RaytracerState::Running { commissioned: 12, completed: 0 });
    let state = state.update(11);
    assert_eq!(state, RaytracerState::Running { commissioned: 12, completed: 11 });
    let state = state.update(1);
    assert_eq!(state, RaytracerState::Finished { commissioned: 12, completed: 12 });
    assert!(!state.is_running());
    assert_eq!(state.update(5), state);
    assert_eq!(RaytracerState::Created.update(5), RaytracerState::Created);
    assert_eq!(RaytracerState::Stopped.update(5), RaytracerState::Stopped);
    let paused = RaytracerState::Paused { commissioned: 3, completed: 1 };
    assert_eq!(paused.update(5), paused);
    assert_eq!(
        RaytracerState::started(0, 7).update(0),
        RaytracerState::Finished { commissioned: 0, completed: 0 }
    );
    assert_eq!(
        RaytracerState::Running { commissioned: 2, completed: 1 }.update(4),
        RaytracerState::Finished { commissioned: 2, completed: 5 }
    );
}

#[test]
fn coordinates_beyond_the_border() {
    assert_eq!(get_wrapped_coordinate(3, 4, TextureWrapMode::NoWrap), Some(3));
    assert_eq!(get_wrapped_coordinate(4, 4, TextureWrapMode::NoWrap), None);
    assert_eq!(get_wrapped_coordinate(3, 4, TextureWrapMode::Clamp), Some(3));
    assert_eq!(get_wrapped_coordinate(4, 4, TextureWrapMode::Clamp), Some(3));
    assert_eq!(get_wrapped_coordinate(100, 4, TextureWrapMode::Clamp), Some(3));
    assert_eq!(get_wrapped_coordinate(4, 4, TextureWrapMode::Repeat), Some(0));
    assert_eq!(get_wrapped_coordinate(9, 4, TextureWrapMode::Repeat), Some(1));
    assert_eq!(get_wrapped_coordinate(2, 4, TextureWrapMode::Mirror), Some(2));
    assert_eq!(get_wrapped_coordinate(5, 4, TextureWrapMode::Mirror), Some(3));
    assert_eq!(get_wrapped_coordinate(7, 4, TextureWrapMode::Mirror), Some(1));
    assert_eq!(get_wrapped_coordinate(9, 4, TextureWrapMode::Mirror), Some(1));
    assert_eq!(get_wrapped_coordinate(12, 4, TextureWrapMode::Mirror), Some(4));
}

#[test]
fn what_waiting_for_a_result_comes_to() {
    assert_eq!(message_to_result(Some(7u8)), Ok(7u8));
    assert_eq!(message_to_result::<u8>(None), Err(()));
}

#[test]
fn what_adding_work_comes_to() {
    assert_eq!(sent_to_result(true), Ok(()));
    assert_eq!(sent_to_result(false), Err(()));
}

#[test]
fn a_queue_holds_some_or_none() {
    assert!(!some_waiting(0));
    assert!(some_waiting(1));
    assert!(some_waiting(usize::MAX));
}

#[test]
fn results_are_kept_until_none_is_found() {
    let mut results = vec![1u8];
    assert!(keep_result(Attempt::Message(2u8), &mut results));
    assert_eq!(results, vec![1u8, 2u8]);
    assert!(!keep_result(Attempt::Empty, &mut results));
    assert_eq!(results, vec![1u8, 2u8]);
    assert!(!keep_result(Attempt::Disconnected, &mut results));
    assert_eq!(results, vec![1u8, 2u8]);
}

#[test]
fn no_more_results_are_taken_than_asked_for() {
    let mut pool = Pool::create(Numbered);
    let mut links = pool.spin_up(Some(1)).unwrap();
    let mut link = links.pop().unwrap();
    let mut worker = RaytracingWorker::default();
    assert!(worker.work_off(RaytracingWork::line(0, 0, 5, false), &mut link));
    assert!(pool.collect_up_to(0).is_empty());
    assert_eq!(pool.collect_up_to(2).len(), 2);
    assert_eq!(
        pool.collect_up_to(1),
        vec![RaytracingResult { x: 2, y: 0, pixel_color: 2 }]
    );
    assert_eq!(pool.collect_up_to(10).len(), 2);
    assert!(pool.collect_up_to(10).is_empty());
}

#[test]
fn generator_without_units_needs_no_running_pool() {
    let mut pool = Pool::create(Numbered);
    let rows = RaytracingWorkGenerator {
        width: 3,
        height: 0,
        generation_mode: GenerationMode::Line {
            reverse_order_horizontal: false,
            random_order_vertical: false,
            transparent: false,
        },
    };
    assert_eq!(rows.generate(&mut pool), Ok(()));
    let empty_rows = RaytracingWorkGenerator {
        width: 0,
        height: 3,
        generation_mode: GenerationMode::Line {
            reverse_order_horizontal: false,
            random_order_vertical: false,
            transparent: false,
        },
    };
    assert_eq!(empty_rows.generate(&mut pool), Err(()));
    let no_cells = RaytracingWorkGenerator {
        width: 0,
        height: 3,
        generation_mode: GenerationMode::Line {
            reverse_order_horizontal: false,
            random_order_vertical: false,
            transparent: true,
        },
    };
    assert_eq!(no_cells.generate(&mut pool), Ok(()));
}

#[test]
fn a_unit_is_handed_over_as_work() {
    match work_message(7u8) {
        Work::Work(unit) => assert_eq!(unit, 7u8),
        Work::Close => panic!("a unit of work was expected"),
    }
}

#[test]
fn one_order_to_end_for_each_worker() {
    assert!(orders_to_end::<u8>(0).is_empty());
    let orders = orders_to_end::<u8>(3);
    assert_eq!(orders.len(), 3);
    for order in orders.iter() {
        assert!(matches!(order, Work::Close));
    }
}

#[test]
fn orders_to_end_come_behind_the_work() {
    let mut pool = Pool::create(Numbered);
    let links = pool.spin_up(Some(2)).unwrap();
    assert!(!pool.has_work_left());
    assert_eq!(pool.add_work(RaytracingWork::pixel(1, 1)), Ok(()));
    assert_eq!(pool.add_work(RaytracingWork::pixel(2, 2)), Ok(()));
    assert!(pool.has_work_left());
    assert_eq!(pool.shut_down(), Ok(()));
    let first = links[0].receive_work();
    let second = links[0].receive_work();
    assert!(first.is_some());
    assert!(second.is_some());
    assert!(pool.has_work_left());
    assert!(links[0].receive_work().is_none());
    assert!(pool.has_work_left());
    assert!(links[1].receive_work().is_none());
    assert!(!pool.has_work_left());
}

#[test]
fn unit_without_cells_is_done_at_once() {
    let mut pool = Pool::create(Numbered);
    let mut links = pool.spin_up(Some(1)).unwrap();
    let mut link = links.pop().unwrap();
    let mut worker = RaytracingWorker::default();
    assert!(worker.work_off(RaytracingWork::line(0, 0, 0, false), &mut link));
    assert!(worker.current_task_state.is_none());
    assert!(pool.collect_finished().is_empty());
}

#[test]
fn worker_ends_where_the_pool_is_gone() {
    let mut pool = Pool::create(Numbered);
    let mut links = pool.spin_up(Some(1)).unwrap();
    let mut link = links.pop().unwrap();
    drop(links);
    drop(pool);
    let mut worker = RaytracingWorker::default();
    assert!(!worker.work_off(RaytracingWork::line(0, 0, 3, false), &mut link));
    assert!(worker.current_task_state.is_some());
    assert!(worker.work_off(RaytracingWork::line(0, 0, 0, false), &mut link));
}
