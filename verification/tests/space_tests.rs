use particle_sim::space::Space;

type Pt = (f32, f32);

fn space_with(points: &[Pt]) -> Space<Pt, f32> {
    let mut space: Space<Pt, f32> = Space::new(4, 4);
    for p in points {
        space.add_particle(*p);
    }
    space
}

fn dist(a: Pt, b: Pt) -> f32 {
    ((a.0 - b.0) * (a.0 - b.0) + (a.1 - b.1) * (a.1 - b.1)).sqrt()
}

fn keys_for(space: &Space<Pt, f32>, block: &[usize]) -> Vec<Vec<u32>> {
    block
        .iter()
        .map(|&a| block.iter().map(|&b| dist(*space.particle(b), *space.particle(a)).to_bits()).collect())
        .collect()
}

#[test]
fn new_space_is_empty() {
    let space: Space<Pt, f32> = Space::new(47, 47);
    assert_eq!(space.n_objects(), 0);
    assert!(space.links().is_empty());
    assert_eq!(space.substeps(), 1);
    assert_eq!(space.grid().width, 47);
    assert_eq!(space.grid().cells.len(), 48);
}

#[test]
fn set_substeps_sets_them() {
    let mut space = space_with(&[]);
    space.set_substeps(8);
    assert_eq!(space.substeps(), 8);
}

#[test]
fn handles_count_up_from_zero() {
    let mut space = space_with(&[]);
    assert_eq!(space.add_particle((1.0, 2.0)), 0);
    assert_eq!(space.add_particle((3.0, 4.0)), 1);
    assert_eq!(space.add_particle((5.0, 6.0)), 2);
    assert_eq!(space.n_objects(), 3);
    assert_eq!(*space.particle(1), (3.0, 4.0));
    space.set_particle(1, (9.0, 9.0));
    assert_eq!(space.particles(), &vec![(1.0, 2.0), (9.0, 9.0), (5.0, 6.0)]);
}

#[test]
fn added_link_exists_both_ways() {
    let mut space = space_with(&[(0.0, 0.0), (1.0, 0.0), (2.0, 0.0)]);
    assert!(!space.link_exists(0, 2));
    space.add_link(2, 0, 0.5);
    assert!(space.link_exists(0, 2));
    assert!(space.link_exists(2, 0));
    assert!(!space.link_exists(0, 1));
    assert_eq!(space.links(), &vec![(2, 0)]);
    assert_eq!(space.link_data(), &vec![0.5]);
}

#[test]
fn remove_particle_drops_its_links_and_shifts_the_rest() {
    let mut space = space_with(&[(0.0, 0.0), (1.0, 0.0), (2.0, 0.0), (3.0, 0.0)]);
    space.add_link(0, 1, 1.0);
    space.add_link(1, 2, 2.0);
    space.add_link(2, 3, 3.0);
    space.add_link(3, 0, 4.0);
    space.remove_particle(1);
    assert_eq!(space.particles(), &vec![(0.0, 0.0), (2.0, 0.0), (3.0, 0.0)]);
    // the ends of the other links are left as they were
    assert_eq!(space.links(), &vec![(2, 3), (3, 0)]);
    assert_eq!(space.link_data(), &vec![3.0, 4.0]);
}

#[test]
fn removing_the_particle_just_added_undoes_it() {
    let mut space = space_with(&[(0.0, 0.0), (1.0, 0.0)]);
    space.add_link(0, 1, 1.0);
    let h = space.add_particle((7.0, 7.0));
    space.remove_particle(h);
    assert_eq!(space.particles(), &vec![(0.0, 0.0), (1.0, 0.0)]);
    assert_eq!(space.links(), &vec![(0, 1)]);
}

#[test]
fn remove_outside_removes_the_flagged_particles_and_their_links() {
    let mut space = space_with(&[(0.0, 0.0), (1.0, 0.0), (2.0, 0.0), (3.0, 0.0), (4.0, 0.0)]);
    space.add_link(0, 1, 1.0);
    space.add_link(2, 3, 2.0);
    space.add_link(0, 4, 3.0);
    space.add_link(2, 4, 4.0);
    space.remove_outside(&vec![false, true, false, false, true]);
    assert_eq!(space.particles(), &vec![(0.0, 0.0), (2.0, 0.0), (3.0, 0.0)]);
    assert_eq!(space.links(), &vec![(2, 3)]);
    assert_eq!(space.link_data(), &vec![2.0]);
}

#[test]
fn remove_outside_with_no_flag_changes_nothing() {
    let mut space = space_with(&[(0.0, 0.0), (1.0, 0.0)]);
    space.add_link(0, 1, 1.0);
    space.remove_outside(&vec![false, false]);
    assert_eq!(space.n_objects(), 2);
    assert_eq!(space.links(), &vec![(0, 1)]);
}

#[test]
fn add_block_links_each_member_to_its_chosen_neighbours() {
    let mut space = space_with(&[(0.0, 0.0), (1.0, 0.0), (2.0, 0.0), (3.0, 0.0)]);
    let block = vec![0, 1, 2, 3];
    let keys = keys_for(&space, &block);
    space.add_block(block, &keys, |a: usize, b: usize| (a * 10 + b) as f32);
    assert_eq!(space.links(), &vec![(0, 1), (0, 2), (0, 3), (1, 2), (1, 3), (2, 3)]);
    assert_eq!(space.link_data(), &vec![1.0, 2.0, 3.0, 12.0, 13.0, 23.0]);
}

#[test]
fn add_block_skips_existing_links() {
    let mut space = space_with(&[(0.0, 0.0), (1.0, 0.0), (2.0, 0.0)]);
    space.add_link(1, 0, 9.0);
    let block = vec![0, 1, 2];
    let keys = keys_for(&space, &block);
    space.add_block(block, &keys, |_a: usize, _b: usize| 0.0);
    // member 0 gets slots [1, 2], and (0, 1) exists as (1, 0); member 1 gets [0, 2],
    // and (1, 0) exists; member 2 gets [1], as 1 takes slot 0 from the farther 0,
    // and (2, 1) exists as (1, 2)
    assert_eq!(space.links(), &vec![(1, 0), (0, 2), (1, 2)]);
}

#[test]
fn add_block_replaces_a_farther_slot_without_shifting() {
    // member 0 is offered 1 (far), 2 (near), 3 (middle): 2 takes slot 0 from 1,
    // then 3 is not nearer than 2 and takes the empty slot 1
    let mut space = space_with(&[(0.0, 0.0), (5.0, 0.0), (1.0, 0.0), (3.0, 0.0)]);
    let block = vec![0, 1, 2, 3];
    let keys = keys_for(&space, &block);
    space.add_block(block, &keys, |_a: usize, _b: usize| 0.0);
    let links = space.links().clone();
    assert_eq!(&links[0..2], &[(0, 2), (0, 3)]);
}

#[test]
fn add_block_of_one_adds_nothing() {
    let mut space = space_with(&[(0.0, 0.0)]);
    space.add_block(vec![0], &vec![vec![0]], |_a: usize, _b: usize| 0.0);
    assert!(space.links().is_empty());
}

#[test]
fn apply_links_visits_from_last_and_removes_broken_ones() {
    let mut space = space_with(&[(0.0, 0.0), (1.0, 0.0), (2.0, 0.0)]);
    space.add_link(0, 1, 1.0);
    space.add_link(1, 2, 5.0);
    space.add_link(0, 2, 2.0);
    // a link breaks when its data is above 1.5; each end moves by the data
    space.apply_links(|a: &Pt, b: &Pt, d: &f32| (*d > 1.5, (a.0 + d, a.1), (b.0 - d, b.1)));
    assert_eq!(space.links(), &vec![(0, 1)]);
    assert_eq!(space.link_data(), &vec![1.0]);
    // link (0, 2): 0 -> 2.0, 2 -> 0.0; link (1, 2): 1 -> 6.0, 2 -> -5.0;
    // link (0, 1): 0 -> 3.0, 1 -> 5.0
    assert_eq!(space.particles(), &vec![(3.0, 0.0), (5.0, 0.0), (-5.0, 0.0)]);
}

#[test]
fn relax_link_replaces_the_ends_and_may_break() {
    let mut space = space_with(&[(0.0, 0.0), (1.0, 0.0)]);
    space.add_link(0, 1, 1.0);
    space.relax_link(0, false, (0.5, 0.0), (0.75, 0.0));
    assert_eq!(space.links(), &vec![(0, 1)]);
    assert_eq!(space.particles(), &vec![(0.5, 0.0), (0.75, 0.0)]);
    space.relax_link(0, true, (0.0, 0.0), (1.0, 0.0));
    assert!(space.links().is_empty());
    assert_eq!(space.particles(), &vec![(0.0, 0.0), (1.0, 0.0)]);
}

#[test]
fn map_particles_replaces_every_particle() {
    let mut space = space_with(&[(0.0, 0.0), (1.0, 2.0)]);
    space.map_particles(|p: &Pt| (p.0 + 1.0, p.1 * 2.0));
    assert_eq!(space.particles(), &vec![(1.0, 0.0), (2.0, 4.0)]);
}

#[test]
fn is_colliding_answers_whether_some_particle_overlaps() {
    let space = space_with(&[(0.0, 0.0), (10.0, 0.0)]);
    assert!(space.is_colliding(|p: &Pt| dist(*p, (9.5, 0.0)) < 1.0));
    assert!(!space.is_colliding(|p: &Pt| dist(*p, (5.0, 0.0)) < 1.0));
    let empty = space_with(&[]);
    assert!(!empty.is_colliding(|_p: &Pt| true));
}

#[test]
fn update_grid_files_the_particles() {
    let mut space = space_with(&[(0.0, 0.0), (1.0, 0.0), (2.0, 0.0)]);
    space.update_grid(&vec![(1, 1), (0, 0), (1, 1)]);
    assert_eq!(space.grid().get(1, 1).objects, vec![0, 2]);
    assert_eq!(space.grid().get(0, 0).objects, vec![1]);
}

fn cell_of(p: &Pt) -> (isize, isize) {
    (p.0.floor() as isize, p.1.floor() as isize)
}

fn separate(a: &Pt, b: &Pt) -> Option<(Pt, Pt, (isize, isize), (isize, isize))> {
    let d = dist(*a, *b);
    if d < 1.0 {
        let na = (a.0 - 0.5, a.1);
        let nb = (b.0 + 0.5, b.1);
        Some((na, nb, cell_of(&na), cell_of(&nb)))
    } else {
        None
    }
}

#[test]
fn apply_collisions_pushes_overlapping_particles_apart() {
    let mut space = space_with(&[(1.2, 1.5), (1.6, 1.5), (3.5, 3.5)]);
    space.update_grid(&vec![(1, 1), (1, 1), (3, 3)]);
    assert!(space.apply_collisions(separate).is_ok());
    let ps = space.particles().clone();
    assert!(dist(ps[0], ps[1]) >= 1.0);
    assert_eq!(ps[2], (3.5, 3.5));
    assert_eq!(space.n_objects(), 3);
}

#[test]
fn apply_collisions_reports_a_particle_pushed_out_of_the_grid() {
    let mut space = space_with(&[(0.2, 0.5), (0.4, 0.5)]);
    space.update_grid(&vec![(0, 0), (0, 0)]);
    let r = space.apply_collisions(separate);
    assert_eq!(r.unwrap_err().handle, 0);
}

#[test]
fn apply_collisions_leaves_cells_outside_the_scan_alone() {
    // cells in the last column and row are never scanned
    let mut space = space_with(&[(4.2, 4.5), (4.4, 4.5)]);
    space.update_grid(&vec![(4, 4), (4, 4)]);
    assert!(space.apply_collisions(separate).is_ok());
    assert_eq!(space.particles(), &vec![(4.2, 4.5), (4.4, 4.5)]);
}

#[test]
fn add_block_with_a_repeated_handle_links_it_to_itself_once() {
    let mut space = space_with(&[(0.0, 0.0)]);
    space.add_block(vec![0, 0], &vec![vec![0, 0], vec![0, 0]], |_a: usize, _b: usize| 1.0);
    assert_eq!(space.links(), &vec![(0, 0)]);
}

#[test]
fn apply_links_leaves_unlinked_particles_alone() {
    let mut space = space_with(&[(0.0, 0.0), (1.0, 0.0), (8.0, 8.0)]);
    space.add_link(0, 1, 1.0);
    space.apply_links(|a: &Pt, b: &Pt, _d: &f32| (false, (a.0 + 1.0, a.1), (b.0 + 1.0, b.1)));
    assert_eq!(space.particles(), &vec![(1.0, 0.0), (2.0, 0.0), (8.0, 8.0)]);
}

#[test]
fn settle_collision_moves_both_particles_to_their_cells() {
    let mut space = space_with(&[(0.2, 0.2), (0.4, 0.2)]);
    space.update_grid(&vec![(0, 0), (0, 0)]);
    let r = space.settle_collision(0, 1, (1.5, 1.5), (0.1, 0.2), (1, 1), (0, 0));
    assert!(r.is_ok());
    assert_eq!(space.particles(), &vec![(1.5, 1.5), (0.1, 0.2)]);
    assert_eq!(space.grid().get(1, 1).objects, vec![0]);
    // the window of (1, 1) covers (0, 0), so 0 leaves it
    assert_eq!(space.grid().get(0, 0).objects, vec![1]);
}

#[test]
fn settle_collision_stops_at_a_first_cell_outside_the_grid() {
    let mut space = space_with(&[(0.2, 0.2), (0.4, 0.2)]);
    space.update_grid(&vec![(0, 0), (0, 0)]);
    let r = space.settle_collision(0, 1, (-0.5, 0.2), (0.9, 0.2), (-1, 0), (0, 0));
    assert_eq!(r.unwrap_err().handle, 0);
    assert_eq!(space.particles(), &vec![(-0.5, 0.2), (0.9, 0.2)]);
    assert_eq!(space.grid().get(0, 0).objects, vec![0, 1]);
}

#[test]
fn settle_collision_stops_at_a_second_cell_outside_the_grid() {
    let mut space = space_with(&[(0.2, 0.2), (0.4, 0.2)]);
    space.update_grid(&vec![(0, 0), (0, 0)]);
    let r = space.settle_collision(0, 1, (1.2, 0.2), (9.0, 0.2), (1, 0), (9, 0));
    assert_eq!(r.unwrap_err().handle, 1);
    assert_eq!(space.grid().get(0, 0).objects, vec![1]);
    assert_eq!(space.grid().get(1, 0).objects, vec![0]);
}

fn spring(a: &Pt, b: &Pt, link: &(f32, f32)) -> (bool, Pt, Pt) {
    let axis = (a.0 - b.0, a.1 - b.1);
    let d = dist(*a, *b);
    let n = (axis.0 / d, axis.1 / d);
    let mut delta = link.0 - d;
    let broken = delta > link.1;
    if broken {
        delta = link.1;
    }
    (broken, (a.0 + 0.5 * delta * n.0, a.1 + 0.5 * delta * n.1), (b.0 - 0.5 * delta * n.0, b.1 - 0.5 * delta * n.1))
}

#[test]
fn a_stretched_link_pulls_its_ends_together_and_stays() {
    let mut space: Space<Pt, (f32, f32)> = Space::new(4, 4);
    space.add_particle((10.0, 10.0));
    space.add_particle((13.0, 10.0));
    space.add_link(0, 1, (2.0, 0.5));
    space.apply_links(spring);
    assert_eq!(space.particles(), &vec![(10.5, 10.0), (12.5, 10.0)]);
    assert!(space.link_exists(0, 1));
}

#[test]
fn a_link_compressed_beyond_its_strength_pushes_its_ends_apart_and_breaks() {
    let mut space: Space<Pt, (f32, f32)> = Space::new(4, 4);
    space.add_particle((10.0, 10.0));
    space.add_particle((11.0, 10.0));
    space.add_link(0, 1, (2.0, 0.5));
    space.apply_links(spring);
    assert_eq!(space.particles(), &vec![(9.75, 10.0), (11.25, 10.0)]);
    assert!(!space.link_exists(0, 1));
    assert!(space.link_data().is_empty());
}
