use forceatlas2::forces::attraction::{
    apply_attraction, apply_attraction_dh, apply_attraction_dh_log, apply_attraction_dh_log_po,
    apply_attraction_dh_po, apply_attraction_log, apply_attraction_log_po, apply_attraction_po,
};
use forceatlas2::forces::gravity::{apply_gravity, apply_gravity_sg};
use forceatlas2::forces::repulsion::{
    apply_repulsion_2d, apply_repulsion_2d_po, apply_repulsion_3d, apply_repulsion_3d_po,
};
use forceatlas2::forces::{Attraction, Gravity, Repulsion};
use forceatlas2::layout::{canonical_edges, edges_are_valid};
use forceatlas2::{Coord, Layout, Node, Settings, VecN};
use rand::Rng;

#[derive(Clone, Copy, Debug, PartialEq)]
struct Real(f64);

impl Coord for Real {
    fn zero_spec() -> Self {
        Self::zero()
    }
    fn one_spec() -> Self {
        Self::one()
    }
    fn plus_spec(self, rhs: Self) -> Self {
        self.plus(rhs)
    }
    fn minus_spec(self, rhs: Self) -> Self {
        self.minus(rhs)
    }
    fn times_spec(self, rhs: Self) -> Self {
        self.times(rhs)
    }
    fn over_spec(self, rhs: Self) -> Self {
        self.over(rhs)
    }
    fn negated_spec(self) -> Self {
        self.negated()
    }
    fn sqrt_spec(self) -> Self {
        self.sqrt()
    }
    fn ln_1p_spec(self) -> Self {
        self.ln_1p()
    }
    fn equals_spec(self, rhs: Self) -> bool {
        self.equals(rhs)
    }
    fn below_spec(self, rhs: Self) -> bool {
        self.below(rhs)
    }
    fn at_most_spec(self, rhs: Self) -> bool {
        self.at_most(rhs)
    }
    fn zero() -> Self {
        Real(0.0)
    }
    fn one() -> Self {
        Real(1.0)
    }
    fn plus(self, rhs: Self) -> Self {
        Real(self.0 + rhs.0)
    }
    fn minus(self, rhs: Self) -> Self {
        Real(self.0 - rhs.0)
    }
    fn times(self, rhs: Self) -> Self {
        Real(self.0 * rhs.0)
    }
    fn over(self, rhs: Self) -> Self {
        Real(self.0 / rhs.0)
    }
    fn negated(self) -> Self {
        Real(-self.0)
    }
    fn sqrt(self) -> Self {
        Real(self.0.sqrt())
    }
    fn ln_1p(self) -> Self {
        Real(self.0.ln_1p())
    }
    fn equals(self, rhs: Self) -> bool {
        self.0 == rhs.0
    }
    fn below(self, rhs: Self) -> bool {
        self.0 < rhs.0
    }
    fn at_most(self, rhs: Self) -> bool {
        self.0 <= rhs.0
    }
}

fn v2(x: f64, y: f64) -> VecN<Real, 2> {
    VecN([Real(x), Real(y)])
}

fn v3(x: f64, y: f64, z: f64) -> VecN<Real, 3> {
    VecN([Real(x), Real(y), Real(z)])
}

fn settings() -> Settings<Real> {
    Settings {
        ka: Real(0.5),
        kg: Real(0.01),
        kr: Real(0.01),
        lin_log: false,
        dissuade_hubs: false,
        prevent_overlapping: None,
        speed: Real(1.0),
        strong_gravity: false,
        theta: Real(0.5),
    }
}

fn pair(settings: Settings<Real>) -> Layout<Real, 2> {
    Layout::<Real, 2>::from_position_graph(
        vec![((0, 1), Real(1.0))],
        vec![
            Node { pos: v2(-2.0, -2.0), ..Default::default() },
            Node { pos: v2(1.0, 2.0), ..Default::default() },
        ],
        settings,
    )
}

fn chain(sizes: [f64; 3], settings: Settings<Real>) -> Layout<Real, 2> {
    Layout::<Real, 2>::from_position_graph(
        vec![((0, 1), Real(1.0)), ((1, 2), Real(1.0))],
        vec![
            Node { pos: v2(-1.1, -1.0), size: Real(sizes[0]), ..Default::default() },
            Node { pos: v2(0.0, 0.0), size: Real(sizes[1]), ..Default::default() },
            Node { pos: v2(1.0, 1.0), size: Real(sizes[2]), ..Default::default() },
        ],
        settings,
    )
}

fn gap(a: VecN<Real, 2>, b: VecN<Real, 2>) -> f64 {
    a.distance(b).0
}

fn is_send_sync<T: Send + Sync>() {}

#[test]
fn layout_send_sync() {
    is_send_sync::<Layout<f32, 2>>()
}

#[test]
fn test_global() {
    let mut rng = rand::thread_rng();
    let positions: Vec<VecN<Real, 2>> = (0..5)
        .map(|_| v2(rng.gen_range(-1.0..1.0), rng.gen_range(-1.0..1.0)))
        .collect();
    let mut layout = Layout::<Real, 2>::from_graph_with_degree_mass(
        vec![
            ((0, 1), Real(1.0)),
            ((0, 2), Real(1.0)),
            ((0, 3), Real(1.0)),
            ((1, 2), Real(1.0)),
            ((1, 4), Real(1.0)),
        ],
        vec![Real(1.0); 5],
        positions,
        Settings::default(),
    );

    for _ in 0..10 {
        layout.iteration();
    }

    layout.nodes.iter().for_each(|node| println!("{:?}", node.pos));
}

#[test]
fn test_init_iteration() {
    let mut layout = Layout::<Real, 2>::from_position_graph(
        vec![((0, 1), Real(1.0))],
        vec![
            Node { pos: v2(-1.0, -1.0), speed: v2(12.34, 56.78), ..Default::default() },
            Node { pos: v2(1.0, 1.0), speed: v2(42.0, 666.0), ..Default::default() },
        ],
        Settings::default(),
    );
    layout.init_iteration();
    assert_eq!(layout.nodes[0].speed, v2(0.0, 0.0));
    assert_eq!(layout.nodes[1].speed, v2(0.0, 0.0));
}

#[test]
fn test_forces() {
    let mut layout = pair(Settings::default());

    layout.init_iteration();
    layout.apply_attraction();

    let speed_1 = layout.nodes[0].speed.0;
    let speed_2 = layout.nodes[1].speed.0;
    println!("{:?} {:?}", speed_1, speed_2);

    assert!(speed_1[0].0 > 0.0);
    assert!(speed_1[1].0 > 0.0);
    assert!(speed_2[0].0 < 0.0);
    assert!(speed_2[1].0 < 0.0);
    assert_eq!(speed_1[0].0, 3.0);
    assert_eq!(speed_1[1].0, 4.0);
    assert_eq!(speed_2[0].0, -3.0);
    assert_eq!(speed_2[1].0, -4.0);

    layout.init_iteration();
    layout.apply_repulsion();

    let speed_1 = layout.nodes[0].speed.0;
    let speed_2 = layout.nodes[1].speed.0;
    println!("{:?} {:?}", speed_1, speed_2);

    assert!(speed_1[0].0 < 0.0);
    assert!(speed_1[1].0 < 0.0);
    assert!(speed_2[0].0 > 0.0);
    assert!(speed_2[1].0 > 0.0);
    assert!(speed_1[0].0 > -10.0);
    assert!(speed_1[1].0 > -10.0);
    assert!(speed_2[0].0 < 10.0);
    assert!(speed_2[1].0 < 10.0);

    layout.init_iteration();
    layout.apply_gravity();

    let speed_1 = layout.nodes[0].speed.0;
    let speed_2 = layout.nodes[1].speed.0;
    println!("{:?} {:?}", speed_1, speed_2);

    assert!(speed_1[0].0 > 0.0);
    assert!(speed_1[1].0 > 0.0);
    assert!(speed_2[0].0 < 0.0);
    assert!(speed_2[1].0 < 0.0);
}

#[test]
fn test_convergence() {
    let mut layout = chain([1.0, 1.0, 1.0], settings());

    for _ in 0..10 {
        println!("new iteration");
        layout.init_iteration();
        layout.apply_attraction();
        layout.init_iteration();
        layout.apply_repulsion();
        layout.init_iteration();
        layout.apply_gravity();
        layout.apply_forces();

        let point_1 = layout.nodes[0].pos.0;
        let point_2 = layout.nodes[1].pos.0;
        println!(
            "{}",
            ((point_2[0].0 - point_1[0].0).powi(2) + (point_2[1].0 - point_1[1].0).powi(2)).sqrt()
        );
    }
}

#[test]
fn test_convergence_po() {
    let mut layout = chain(
        [1.0, 5.0, 1.0],
        Settings { prevent_overlapping: Some(Real(100.)), ..settings() },
    );

    for _ in 0..10 {
        println!("new iteration");
        layout.init_iteration();
        layout.apply_attraction();
        layout.init_iteration();
        layout.apply_repulsion();
        layout.init_iteration();
        layout.apply_gravity();
        layout.apply_forces();

        let point_1 = layout.nodes[0].pos.0;
        let point_2 = layout.nodes[1].pos.0;
        println!(
            "{}",
            ((point_2[0].0 - point_1[0].0).powi(2) + (point_2[1].0 - point_1[1].0).powi(2)).sqrt()
        );
    }
}

#[test]
fn chain_settles() {
    let mut layout = chain([1.0, 1.0, 1.0], settings());
    let mut gaps = Vec::new();
    for _ in 0..10 {
        layout.iteration();
        let d = gap(layout.nodes[0].pos, layout.nodes[1].pos);
        assert!(d.is_finite());
        assert!(d > 0.0);
        assert!(d < 10.0);
        gaps.push(d);
    }
    // once the first swings are over, the distance moves less and less
    for i in 4..9 {
        assert!((gaps[i + 1] - gaps[i]).abs() <= (gaps[i] - gaps[i - 1]).abs());
    }
    assert!((gaps[9] - gaps[8]).abs() < 0.01);
}

#[test]
fn discs_do_not_overlap_in_the_end() {
    let sizes = [1.0, 5.0, 1.0];
    let mut layout =
        chain(sizes, Settings { prevent_overlapping: Some(Real(100.0)), ..settings() });
    for _ in 0..60 {
        layout.iteration();
    }
    for a in 0..3 {
        for b in (a + 1)..3 {
            let d = gap(layout.nodes[a].pos, layout.nodes[b].pos);
            assert!(d.is_finite());
            assert!(d >= sizes[a] + sizes[b] - 0.01, "{} and {} are {} apart", a, b, d);
        }
    }
}

#[test]
fn theta_outside_the_unit_interval_is_not_valid() {
    for theta in [-0.1, 1.5, 1.0001, f64::NAN, f64::INFINITY, f64::NEG_INFINITY] {
        assert!(!Settings { theta: Real(theta), ..settings() }.check());
    }
    for theta in [0.0, -0.0, 0.5, 1.0] {
        let good = Settings { theta: Real(theta), ..settings() };
        assert!(good.check());
        assert!(Layout::<Real, 2>::empty(good).is_well_formed());
    }
}

#[test]
fn empty_layout_has_nothing_and_iterates() {
    let mut layout = Layout::<Real, 2>::empty(settings());
    assert_eq!(layout.nodes.len(), 0);
    assert_eq!(layout.edges.len(), 0);
    layout.iteration();
    assert_eq!(layout.nodes.len(), 0);
}

#[test]
fn edges_to_missing_nodes_are_not_valid() {
    let w = Real(1.0);
    assert!(!edges_are_valid(&[((0, 2), w)], 2));
    assert!(!edges_are_valid(&[((2, 0), w)], 2));
    assert!(!edges_are_valid(&[((0, 1), w), ((1, 5), w)], 2));
    assert!(!edges_are_valid(&[((0, 0), w)], 0));
    assert!(edges_are_valid(&[((0, 1), w), ((1, 0), w), ((1, 1), w)], 2));
    assert!(edges_are_valid::<Real>(&[], 0));
    assert_eq!(canonical_edges(vec![((1, 0), w), ((0, 1), w), ((3, 3), w)]), vec![
        ((0, 1), w),
        ((0, 1), w),
        ((3, 3), w)
    ]);
    let nodes = vec![Node::<Real, 2>::default(), Node::default()];
    let layout = Layout::from_position_graph(vec![((1, 0), Real(1.0))], nodes, settings());
    assert!(layout.is_well_formed());
}

#[test]
fn an_edge_from_a_node_to_itself_is_taken() {
    let nodes = vec![
        Node::<Real, 2> { pos: v2(-2.0, -2.0), ..Default::default() },
        Node { pos: v2(1.0, 2.0), ..Default::default() },
    ];
    let mut layout = Layout::from_position_graph(
        vec![((1, 1), Real(3.0)), ((1, 0), Real(1.0))],
        nodes.clone(),
        Settings::default(),
    );
    assert_eq!(layout.edges, vec![((1, 1), Real(3.0)), ((0, 1), Real(1.0))]);
    assert!(layout.is_well_formed());
    // the edge from the node to itself pulls nothing
    layout.apply_attraction();
    assert_eq!(layout.nodes[0].speed, v2(3.0, 4.0));
    assert_eq!(layout.nodes[1].speed, v2(-3.0, -4.0));
    for _ in 0..3 {
        layout.iteration();
    }
    assert!(layout.nodes[1].pos.0[0].0.is_finite());

    let layout = Layout::<Real, 2>::from_graph_with_masses(
        vec![((0, 0), Real(1.0))],
        vec![(Real(1.0), Real(1.0)); 2],
        vec![v2(0.0, 0.0), v2(1.0, 1.0)],
        settings(),
    );
    assert_eq!(layout.edges, vec![((0, 0), Real(1.0))]);

    // both ends of the edge count for the mass of its node
    let layout = Layout::<Real, 2>::from_graph_with_degree_mass(
        vec![((1, 1), Real(1.0)), ((0, 1), Real(1.0))],
        vec![Real(1.0); 2],
        vec![v2(0.0, 0.0), v2(1.0, 1.0)],
        settings(),
    );
    assert_eq!(layout.nodes[0].mass, Real(1.0));
    assert_eq!(layout.nodes[1].mass, Real(3.0));

    let mut layout = Layout::from_position_graph(vec![], nodes, settings());
    let more = [Node { pos: v2(5.0, 5.0), ..Default::default() }];
    layout.add_nodes(&[((2, 2), Real(3.0))], &more);
    assert_eq!(layout.edges, vec![((2, 2), Real(3.0))]);
    layout.iteration();
    layout.remove_node_with_edges(2);
    assert!(layout.edges.is_empty());
    assert!(layout.is_well_formed());
}

#[test]
fn degree_mass_counts_the_ends_of_edges() {
    let layout = Layout::<Real, 2>::from_graph_with_degree_mass(
        vec![
            ((0, 1), Real(1.0)),
            ((1, 2), Real(1.5)),
            ((0, 2), Real(0.7)),
            ((3, 2), Real(1.0)),
        ],
        vec![Real(1.0), Real(2.0), Real(3.0), Real(4.0), Real(5.0)],
        vec![v2(0.0, 0.0), v2(1.0, 0.0), v2(0.0, 1.0), v2(1.0, 1.0), v2(2.0, 2.0)],
        settings(),
    );
    let masses: Vec<f64> = layout.nodes.iter().map(|n| n.mass.0).collect();
    assert_eq!(masses, vec![2.0, 2.0, 3.0, 1.0, 0.0]);
    let sizes: Vec<f64> = layout.nodes.iter().map(|n| n.size.0).collect();
    assert_eq!(sizes, vec![1.0, 2.0, 3.0, 4.0, 5.0]);
    assert_eq!(layout.nodes[3].pos, v2(1.0, 1.0));
    assert_eq!(layout.nodes[3].speed, v2(0.0, 0.0));
    assert_eq!(layout.nodes[3].old_speed, v2(0.0, 0.0));
    assert_eq!(
        layout.edges,
        vec![
            ((0, 1), Real(1.0)),
            ((1, 2), Real(1.5)),
            ((0, 2), Real(0.7)),
            ((2, 3), Real(1.0)),
        ]
    );
}

#[test]
fn given_masses_are_kept() {
    let layout = Layout::<Real, 2>::from_graph_with_masses(
        vec![((1, 0), Real(2.0))],
        vec![(Real(3.0), Real(0.5)), (Real(4.0), Real(0.25))],
        vec![v2(0.0, 0.0), v2(1.0, 0.0)],
        settings(),
    );
    assert_eq!(layout.nodes[0].mass, Real(3.0));
    assert_eq!(layout.nodes[0].size, Real(0.5));
    assert_eq!(layout.nodes[1].mass, Real(4.0));
    assert_eq!(layout.nodes[1].size, Real(0.25));
    assert_eq!(layout.nodes[1].pos, v2(1.0, 0.0));
    assert_eq!(layout.edges, vec![((0, 1), Real(2.0))]);
}

#[test]
fn added_nodes_follow_the_old_ones() {
    let mut layout = pair(settings());
    let more = [Node { pos: v2(5.0, 5.0), ..Default::default() }];
    layout.add_nodes(&[((2, 0), Real(3.0)), ((1, 2), Real(4.0))], &more);
    assert_eq!(layout.nodes.len(), 3);
    assert_eq!(layout.nodes[2].pos, v2(5.0, 5.0));
    assert_eq!(
        layout.edges,
        vec![((0, 1), Real(1.0)), ((0, 2), Real(3.0)), ((1, 2), Real(4.0))]
    );
    layout.iteration();
}

#[test]
fn an_edge_is_removed_by_index() {
    let mut layout = chain([1.0, 1.0, 1.0], settings());
    layout.remove_edge(0);
    assert_eq!(layout.edges, vec![((1, 2), Real(1.0))]);
    assert_eq!(layout.nodes.len(), 3);
}

#[test]
fn a_node_goes_with_its_edges_and_the_rest_is_renamed() {
    let nodes: Vec<Node<Real, 2>> =
        (0..5).map(|i| Node { pos: v2(i as f64, 0.0), ..Default::default() }).collect();
    let mut layout = Layout::from_position_graph(
        vec![
            ((0, 1), Real(1.0)),
            ((1, 2), Real(2.0)),
            ((2, 3), Real(3.0)),
            ((3, 4), Real(4.0)),
            ((0, 4), Real(5.0)),
            ((0, 2), Real(6.0)),
        ],
        nodes,
        settings(),
    );
    layout.remove_node_with_edges(2);
    assert_eq!(layout.nodes.len(), 4);
    let xs: Vec<f64> = layout.nodes.iter().map(|n| n.pos.0[0].0).collect();
    assert_eq!(xs, vec![0.0, 1.0, 3.0, 4.0]);
    // (1,2), (2,3) and (0,2) are gone; 3 became 2 and 4 became 3
    assert_eq!(
        layout.edges,
        vec![((0, 1), Real(1.0)), ((0, 3), Real(5.0)), ((2, 3), Real(4.0))]
    );
    layout.iteration();
}

#[test]
fn incident_edges_go_without_the_node() {
    let mut layout = chain([1.0, 1.0, 1.0], settings());
    layout.remove_incident_edges(0);
    assert_eq!(layout.nodes.len(), 3);
    assert_eq!(layout.edges, vec![((0, 1), Real(1.0))]);
    layout.remove_node(0);
    assert_eq!(layout.nodes.len(), 2);
    layout.iteration();
}

#[test]
fn settings_come_back_as_they_were_set() {
    let mut layout = pair(settings());
    let s = Settings {
        ka: Real(0.25),
        kg: Real(0.0),
        kr: Real(3.0),
        lin_log: true,
        dissuade_hubs: true,
        prevent_overlapping: Some(Real(7.0)),
        speed: Real(0.5),
        strong_gravity: true,
        theta: Real(1.0),
    };
    layout.set_settings(s);
    assert_eq!(*layout.get_settings(), s);
    assert_eq!(layout.fn_attraction, Attraction::HubsLogNoOverlap);
    assert_eq!(layout.fn_gravity, Gravity::Off);
    assert_eq!(layout.fn_repulsion, Repulsion::NoOverlap);
}

#[test]
fn each_switch_selects_its_variant() {
    let pick = |lin_log: bool, po: bool, dh: bool| {
        Layout::<Real, 2>::choose_attraction(&Settings {
            lin_log,
            dissuade_hubs: dh,
            prevent_overlapping: if po { Some(Real(100.0)) } else { None },
            ..settings()
        })
    };
    assert_eq!(pick(false, false, false), Attraction::Linear);
    assert_eq!(pick(true, false, false), Attraction::Log);
    assert_eq!(pick(false, true, false), Attraction::NoOverlap);
    assert_eq!(pick(true, true, false), Attraction::LogNoOverlap);
    assert_eq!(pick(false, false, true), Attraction::Hubs);
    assert_eq!(pick(true, false, true), Attraction::HubsLog);
    assert_eq!(pick(false, true, true), Attraction::HubsNoOverlap);
    assert_eq!(pick(true, true, true), Attraction::HubsLogNoOverlap);
    let strong = Settings { strong_gravity: true, ..settings() };
    assert_eq!(Layout::<Real, 2>::choose_gravity(&strong), Gravity::Strong);
    assert_eq!(Layout::<Real, 2>::choose_gravity(&settings()), Gravity::Weak);
    let none = Settings { kg: Real(0.0), strong_gravity: true, ..settings() };
    assert_eq!(Layout::<Real, 2>::choose_gravity(&none), Gravity::Off);
    assert_eq!(Layout::<Real, 2>::choose_repulsion(&settings()), Repulsion::Plain);
    assert_eq!(pick(false, true, false).is_prevent_overlapping(), true);
    assert_eq!(pick(false, true, false).is_lin_log(), false);
    assert_eq!(pick(false, false, true).is_dissuade_hubs(), true);
}

#[test]
fn reset_twice_leaves_every_speed_at_zero() {
    let mut layout = Layout::<Real, 2>::from_position_graph(
        vec![],
        vec![
            Node { speed: v2(12.34, 56.78), old_speed: v2(1.0, 2.0), ..Default::default() },
            Node { speed: v2(42.0, 666.0), ..Default::default() },
        ],
        settings(),
    );
    layout.init_iteration();
    assert_eq!(layout.nodes[0].speed, v2(0.0, 0.0));
    assert_eq!(layout.nodes[1].speed, v2(0.0, 0.0));
    assert_eq!(layout.nodes[0].old_speed, v2(12.34, 56.78));
    assert_eq!(layout.nodes[1].old_speed, v2(42.0, 666.0));
    layout.init_iteration();
    assert_eq!(layout.nodes[0].speed, v2(0.0, 0.0));
    assert_eq!(layout.nodes[1].speed, v2(0.0, 0.0));
    assert_eq!(layout.nodes[0].old_speed, v2(0.0, 0.0));
    assert_eq!(layout.nodes[1].old_speed, v2(0.0, 0.0));
}

fn isolated_edge(sizes: (f64, f64), masses: (f64, f64)) -> Layout<Real, 2> {
    Layout::<Real, 2>::from_position_graph(
        vec![((0, 1), Real(2.0))],
        vec![
            Node {
                pos: v2(-2.0, -2.0),
                size: Real(sizes.0),
                mass: Real(masses.0),
                ..Default::default()
            },
            Node {
                pos: v2(1.0, 2.0),
                size: Real(sizes.1),
                mass: Real(masses.1),
                ..Default::default()
            },
        ],
        settings(),
    )
}

#[test]
fn linear_attraction_is_ka_times_weight_times_the_offset() {
    let mut layout = isolated_edge((1.0, 1.0), (1.0, 1.0));
    apply_attraction(&mut layout);
    // (3, 4) * 0.5 * 2
    assert_eq!(layout.nodes[0].speed, v2(3.0, 4.0));
    assert_eq!(layout.nodes[1].speed, v2(-3.0, -4.0));
}

#[test]
fn logarithmic_attraction_follows_ln_of_one_plus_the_distance() {
    let mut layout = isolated_edge((1.0, 1.0), (1.0, 1.0));
    apply_attraction_log(&mut layout);
    let s = 5.0f64.ln_1p() / 5.0 * 0.5 * 2.0;
    assert_eq!(layout.nodes[0].speed, v2(3.0 * s, 4.0 * s));
    assert_eq!(layout.nodes[1].speed, v2(0.0 - 3.0 * s, 0.0 - 4.0 * s));
}

#[test]
fn attraction_between_discs_follows_the_gap() {
    let mut layout = isolated_edge((1.0, 1.5), (1.0, 1.0));
    apply_attraction_po(&mut layout);
    let s = (5.0f64 - 1.0 - 1.5) / 5.0 * 0.5 * 2.0;
    assert_eq!(layout.nodes[0].speed, v2(3.0 * s, 4.0 * s));
    assert_eq!(layout.nodes[1].speed, v2(0.0 - 3.0 * s, 0.0 - 4.0 * s));

    let mut layout = isolated_edge((1.0, 1.5), (1.0, 1.0));
    apply_attraction_log_po(&mut layout);
    let s = (5.0f64 - 1.0 - 1.5).ln_1p() / 5.0 * 0.5 * 2.0;
    assert_eq!(layout.nodes[0].speed, v2(3.0 * s, 4.0 * s));
    assert_eq!(layout.nodes[1].speed, v2(0.0 - 3.0 * s, 0.0 - 4.0 * s));
}

#[test]
fn discs_that_touch_do_not_attract() {
    for sizes in [(2.0, 3.0), (4.0, 3.0)] {
        let mut layout = isolated_edge(sizes, (1.0, 1.0));
        apply_attraction_po(&mut layout);
        assert_eq!(layout.nodes[0].speed, v2(0.0, 0.0));
        assert_eq!(layout.nodes[1].speed, v2(0.0, 0.0));
        apply_attraction_log_po(&mut layout);
        assert_eq!(layout.nodes[0].speed, v2(0.0, 0.0));
        assert_eq!(layout.nodes[1].speed, v2(0.0, 0.0));
        apply_attraction_dh_po(&mut layout);
        apply_attraction_dh_log_po(&mut layout);
        assert_eq!(layout.nodes[0].speed, v2(0.0, 0.0));
        assert_eq!(layout.nodes[1].speed, v2(0.0, 0.0));
    }
}

#[test]
fn coincident_ends_do_not_attract_logarithmically() {
    let mut layout = Layout::<Real, 2>::from_position_graph(
        vec![((0, 1), Real(2.0))],
        vec![
            Node { pos: v2(1.0, 2.0), ..Default::default() },
            Node { pos: v2(1.0, 2.0), ..Default::default() },
        ],
        settings(),
    );
    apply_attraction_log(&mut layout);
    apply_attraction_dh_log(&mut layout);
    assert_eq!(layout.nodes[0].speed, v2(0.0, 0.0));
    assert_eq!(layout.nodes[1].speed, v2(0.0, 0.0));
}

#[test]
fn hubs_are_pulled_less() {
    let mut layout = isolated_edge((1.0, 1.0), (4.0, 8.0));
    apply_attraction_dh(&mut layout);
    assert_eq!(layout.nodes[0].speed, v2(0.75, 1.0));
    assert_eq!(layout.nodes[1].speed, v2(-3.0, -4.0));

    let mut layout = isolated_edge((1.0, 1.0), (4.0, 8.0));
    apply_attraction_dh_log(&mut layout);
    let s = 5.0f64.ln_1p() / 5.0 * 0.5 * 2.0;
    assert_eq!(layout.nodes[0].speed, v2(3.0 * s / 4.0, 4.0 * s / 4.0));
    assert_eq!(layout.nodes[1].speed, v2(0.0 - 3.0 * s, 0.0 - 4.0 * s));

    let mut layout = isolated_edge((1.0, 1.5), (4.0, 8.0));
    apply_attraction_dh_po(&mut layout);
    let s = (5.0f64 - 1.0 - 1.5) / 5.0 * 0.5 * 2.0;
    assert_eq!(layout.nodes[0].speed, v2(3.0 * s / 4.0, 4.0 * s / 4.0));
    assert_eq!(layout.nodes[1].speed, v2(0.0 - 3.0 * s, 0.0 - 4.0 * s));

    let mut layout = isolated_edge((1.0, 1.5), (4.0, 8.0));
    apply_attraction_dh_log_po(&mut layout);
    let s = (5.0f64 - 1.0 - 1.5).ln_1p() / 5.0 * 0.5 * 2.0;
    assert_eq!(layout.nodes[0].speed, v2(3.0 * s / 4.0, 4.0 * s / 4.0));
    assert_eq!(layout.nodes[1].speed, v2(0.0 - 3.0 * s, 0.0 - 4.0 * s));
}

#[test]
fn an_isolated_edge_gives_its_ends_opposite_speeds() {
    for (lin_log, po) in [(false, false), (true, false), (false, true), (true, true)] {
        let mut layout = isolated_edge((0.5, 0.25), (3.0, 7.0));
        let s = Settings {
            lin_log,
            prevent_overlapping: if po { Some(Real(100.0)) } else { None },
            ..settings()
        };
        layout.set_settings(s);
        layout.init_iteration();
        layout.apply_attraction();
        let a = layout.nodes[0].speed;
        let b = layout.nodes[1].speed;
        assert!(a.0[0].0 != 0.0 && a.0[1].0 != 0.0);
        assert_eq!(a, b.negated());
    }
}

#[test]
fn gravity_pulls_toward_the_origin() {
    let mut layout = isolated_edge((1.0, 1.0), (3.0, 1.0));
    layout.set_settings(Settings { kg: Real(2.0), ..settings() });
    apply_gravity(&mut layout);
    // pos * (mass + 1) * kg / |pos|^2
    assert_eq!(layout.nodes[0].speed, v2(2.0, 2.0));
    assert_eq!(layout.nodes[1].speed, v2(0.0 - 1.0 * 2.0 * 2.0 / 5.0, 0.0 - 2.0 * 2.0 * 2.0 / 5.0));
}

#[test]
fn strong_gravity_pulls_the_same_at_every_distance() {
    let mut layout = isolated_edge((1.0, 1.0), (3.0, 1.0));
    layout.set_settings(Settings { kg: Real(2.0), ..settings() });
    apply_gravity_sg(&mut layout);
    // pos / |pos| * (mass + 1) * kg
    let d0 = 8.0f64.sqrt();
    let d1 = 5.0f64.sqrt();
    assert_eq!(
        layout.nodes[0].speed,
        v2(0.0 - -2.0 / d0 * 4.0 * 2.0, 0.0 - -2.0 / d0 * 4.0 * 2.0)
    );
    assert_eq!(layout.nodes[1].speed, v2(0.0 - 1.0 / d1 * 2.0 * 2.0, 0.0 - 2.0 / d1 * 2.0 * 2.0));

    for x in [0.5, 2.0, 20.0, 2000.0] {
        let mut layout = Layout::<Real, 2>::from_position_graph(
            vec![],
            vec![Node { pos: v2(x, 0.0), mass: Real(0.0), ..Default::default() }],
            Settings { kg: Real(1.0), strong_gravity: true, ..settings() },
        );
        assert_eq!(layout.fn_gravity, Gravity::Strong);
        layout.apply_gravity();
        assert_eq!(layout.nodes[0].speed, v2(-1.0, 0.0));
        assert_eq!(layout.nodes[0].pos, v2(x, 0.0));
    }
}

#[test]
fn strong_gravity_leaves_a_node_at_the_origin_alone() {
    let mut layout = Layout::<Real, 2>::from_position_graph(
        vec![],
        vec![Node { pos: v2(0.0, 0.0), speed: v2(1.5, -2.5), ..Default::default() }],
        Settings { strong_gravity: true, ..Settings::default() },
    );
    assert_eq!(layout.fn_gravity, Gravity::Strong);
    layout.apply_gravity();
    assert_eq!(layout.nodes[0].speed, v2(1.5, -2.5));
    layout.iteration();
    assert_eq!(layout.nodes[0].pos, v2(0.0, 0.0));
}

#[test]
fn gravity_on_one_node_is_the_gravity_of_the_pass() {
    for kind in [Gravity::Off, Gravity::Weak, Gravity::Strong] {
        let mut layout = isolated_edge((1.0, 1.0), (3.0, 1.0));
        let mut alone = layout.nodes[1];
        layout.fn_gravity = kind;
        layout.apply_gravity();
        alone.pull_by(kind, layout.settings.kg);
        assert_eq!(alone, layout.nodes[1]);
        assert_eq!(alone.speed == v2(0.0, 0.0), kind == Gravity::Off);
    }
}

#[test]
fn gravity_leaves_a_node_at_the_origin_alone() {
    let mut layout = Layout::<Real, 2>::from_position_graph(
        vec![],
        vec![Node { pos: v2(0.0, 0.0), speed: v2(1.5, -2.5), ..Default::default() }],
        Settings::default(),
    );
    assert_eq!(layout.fn_gravity, Gravity::Weak);
    layout.apply_gravity();
    assert_eq!(layout.nodes[0].speed, v2(1.5, -2.5));
    assert_eq!(layout.nodes[0].pos, v2(0.0, 0.0));
}

#[test]
fn no_gravity_when_the_coefficient_is_zero() {
    let mut layout = isolated_edge((1.0, 1.0), (3.0, 1.0));
    layout.set_settings(Settings { kg: Real(0.0), strong_gravity: true, ..settings() });
    layout.apply_gravity();
    assert_eq!(layout.nodes[0].speed, v2(0.0, 0.0));
    assert_eq!(layout.nodes[1].speed, v2(0.0, 0.0));
}

#[test]
fn coincident_nodes_do_not_push_each_other() {
    let mut layout = Layout::<Real, 2>::from_position_graph(
        vec![],
        vec![
            Node { pos: v2(3.0, -4.0), ..Default::default() },
            Node { pos: v2(3.0, -4.0), ..Default::default() },
        ],
        Settings::default(),
    );
    layout.apply_repulsion();
    assert_eq!(layout.nodes[0].speed, v2(0.0, 0.0));
    assert_eq!(layout.nodes[1].speed, v2(0.0, 0.0));
    layout.iteration();
    assert_eq!(layout.nodes[0].pos, layout.nodes[1].pos);
    assert!(layout.nodes[0].pos.0[0].0.is_finite());
    assert!(layout.nodes[0].pos.0[1].0.is_finite());
}

#[test]
fn a_single_node_is_not_pushed() {
    let mut layout = Layout::<Real, 2>::from_position_graph(
        vec![],
        vec![Node { pos: v2(3.0, -4.0), ..Default::default() }],
        Settings::default(),
    );
    layout.apply_repulsion();
    assert_eq!(layout.nodes[0].speed, v2(0.0, 0.0));
}

#[test]
fn two_nodes_repel_by_the_pairwise_formula_when_theta_is_zero() {
    let mut layout = isolated_edge((1.0, 1.0), (3.0, 1.0));
    layout.set_settings(Settings { theta: Real(0.0), kr: Real(0.5), ..settings() });
    apply_repulsion_2d(&mut layout);
    // (other - on) * (other mass + 1) / distance * kr * (own mass + 1)
    let on_first = (3.0 * 2.0 / 5.0 * 0.5 * 4.0, 4.0 * 2.0 / 5.0 * 0.5 * 4.0);
    let on_second = (-3.0 * 4.0 / 5.0 * 0.5 * 2.0, -4.0 * 4.0 / 5.0 * 0.5 * 2.0);
    assert_eq!(layout.nodes[0].speed, v2(0.0 - on_first.0, 0.0 - on_first.1));
    assert_eq!(layout.nodes[1].speed, v2(0.0 - on_second.0, 0.0 - on_second.1));
}

#[test]
fn discs_apart_repel_by_the_gap() {
    let mut layout = isolated_edge((1.0, 1.5), (3.0, 1.0));
    layout.set_settings(Settings {
        theta: Real(0.0),
        kr: Real(0.5),
        prevent_overlapping: Some(Real(100.0)),
        ..settings()
    });
    apply_repulsion_2d_po(&mut layout);
    let gap = 5.0 - 1.0 - 1.5;
    let on_first = (3.0 * 2.0 / gap * 0.5 * 4.0, 4.0 * 2.0 / gap * 0.5 * 4.0);
    assert_eq!(layout.nodes[0].speed, v2(0.0 - on_first.0, 0.0 - on_first.1));
}

#[test]
fn discs_that_touch_repel_by_a_constant() {
    let mut layout = isolated_edge((2.0, 3.0), (3.0, 1.0));
    layout.set_settings(Settings {
        theta: Real(0.0),
        kr: Real(0.5),
        prevent_overlapping: Some(Real(100.0)),
        ..settings()
    });
    layout.apply_repulsion();
    let kr_prime = 100.0 / 0.5;
    let on_first = (3.0 * 2.0 * kr_prime * 0.5 * 4.0, 4.0 * 2.0 * kr_prime * 0.5 * 4.0);
    assert_eq!(layout.nodes[0].speed, v2(0.0 - on_first.0, 0.0 - on_first.1));
}

#[test]
fn repulsion_works_in_space() {
    let nodes = vec![
        Node { pos: v3(-2.0, -2.0, 0.0), mass: Real(3.0), ..Default::default() },
        Node { pos: v3(1.0, 2.0, 12.0), ..Default::default() },
    ];
    let mut layout = Layout::<Real, 3>::from_position_graph(
        vec![],
        nodes.clone(),
        Settings { theta: Real(0.0), kr: Real(0.5), ..settings() },
    );
    apply_repulsion_3d(&mut layout);
    let on_first =
        (3.0 * 2.0 / 13.0 * 0.5 * 4.0, 4.0 * 2.0 / 13.0 * 0.5 * 4.0, 12.0 * 2.0 / 13.0 * 0.5 * 4.0);
    assert_eq!(
        layout.nodes[0].speed,
        v3(0.0 - on_first.0, 0.0 - on_first.1, 0.0 - on_first.2)
    );

    let mut layout = Layout::<Real, 3>::from_position_graph(
        vec![],
        nodes,
        Settings {
            theta: Real(0.0),
            kr: Real(0.5),
            prevent_overlapping: Some(Real(100.0)),
            ..settings()
        },
    );
    apply_repulsion_3d_po(&mut layout);
    let gap = 13.0 - 1.0 - 1.0;
    let on_first =
        (3.0 * 2.0 / gap * 0.5 * 4.0, 4.0 * 2.0 / gap * 0.5 * 4.0, 12.0 * 2.0 / gap * 0.5 * 4.0);
    assert_eq!(
        layout.nodes[0].speed,
        v3(0.0 - on_first.0, 0.0 - on_first.1, 0.0 - on_first.2)
    );
    layout.iteration();
}

#[test]
fn the_tree_approximates_within_five_percent() {
    let mut seed: u64 = 12345;
    let mut next = || {
        seed = seed.wrapping_mul(6364136223846793005).wrapping_add(1442695040888963407);
        ((seed >> 11) as f64) / ((1u64 << 53) as f64)
    };
    let mut nodes = Vec::new();
    for _ in 0..300 {
        let x = next() * 200.0 - 100.0;
        let y = next() * 200.0 - 100.0;
        nodes.push(Node { pos: v2(x, y), ..Default::default() });
    }
    let mut exact = Layout::<Real, 2>::from_position_graph(
        vec![],
        nodes.clone(),
        Settings { theta: Real(0.0), ..settings() },
    );
    let mut approx = Layout::<Real, 2>::from_position_graph(vec![], nodes, settings());
    exact.apply_repulsion();
    approx.apply_repulsion();
    let mut sum = 0.0;
    for i in 0..300 {
        let e = exact.nodes[i].speed;
        let a = approx.nodes[i].speed;
        sum += gap(e, a) / e.norm_squared().0.sqrt();
    }
    assert!(sum / 300.0 < 0.05, "mean relative error {}", sum / 300.0);
}

#[test]
fn a_node_moves_by_its_speed_times_its_pace() {
    let mut layout = Layout::<Real, 2>::from_position_graph(
        vec![],
        vec![Node {
            pos: v2(1.0, 1.0),
            speed: v2(3.0, 4.0),
            old_speed: v2(3.0, -4.0),
            ..Default::default()
        }],
        Settings { speed: Real(0.5), ..settings() },
    );
    layout.apply_forces();
    // swinging |(0, 8)| = 8, traction |(6, 0)| = 6
    let pace = 6.0f64.ln_1p() / (8.0f64.sqrt() + 1.0) * 0.5;
    assert_eq!(layout.nodes[0].pos, v2(1.0 + 3.0 * pace, 1.0 + 4.0 * pace));
    assert_eq!(layout.nodes[0].speed, v2(3.0, 4.0));
    assert_eq!(layout.nodes[0].old_speed, v2(3.0, -4.0));
}

#[test]
fn an_iteration_is_the_five_phases_in_order() {
    let mut whole = chain([1.0, 1.0, 1.0], settings());
    let mut phased = chain([1.0, 1.0, 1.0], settings());
    for _ in 0..3 {
        whole.iteration();
        phased.init_iteration();
        phased.apply_attraction();
        phased.apply_repulsion();
        phased.apply_gravity();
        phased.apply_forces();
    }
    for i in 0..3 {
        assert_eq!(whole.nodes[i], phased.nodes[i]);
    }
}

#[test]
fn a_node_is_made_at_rest() {
    let n = Node::<Real, 2>::at(v2(1.0, 2.0), Real(3.0), Real(4.0));
    assert_eq!(
        n,
        Node {
            pos: v2(1.0, 2.0),
            speed: v2(0.0, 0.0),
            old_speed: v2(0.0, 0.0),
            size: Real(3.0),
            mass: Real(4.0)
        }
    );
    let d = Node::<Real, 2>::default();
    assert_eq!(d, Node::at(v2(0.0, 0.0), Real(1.0), Real(1.0)));
}

#[test]
fn a_layout_tells_whether_it_is_well_formed() {
    let mut layout = chain([1.0, 1.0, 1.0], settings());
    assert!(layout.is_well_formed());
    layout.iteration();
    assert!(layout.is_well_formed());
    layout.remove_node(2);
    // the second edge names a node that is gone
    assert!(!layout.is_well_formed());
    layout.remove_edge(1);
    assert!(layout.is_well_formed());
    layout.edges[0] = ((1, 0), Real(1.0));
    assert!(!layout.is_well_formed());
    layout.edges[0] = ((1, 2), Real(1.0));
    assert!(!layout.is_well_formed());
    layout.edges[0] = ((1, 1), Real(1.0));
    assert!(layout.is_well_formed());
    layout.edges[0] = ((0, 1), Real(1.0));
    layout.settings.theta = Real(2.0);
    assert!(!layout.is_well_formed());
    layout.settings.theta = Real(0.5);
    layout.settings.lin_log = true;
    assert!(!layout.is_well_formed());
    layout.fn_attraction = Attraction::Log;
    assert!(layout.is_well_formed());
    layout.settings.kg = Real(0.0);
    assert!(!layout.is_well_formed());
    layout.fn_gravity = Gravity::Off;
    assert!(layout.is_well_formed());
    layout.settings.prevent_overlapping = Some(Real(1.0));
    assert!(!layout.is_well_formed());
    layout.fn_repulsion = Repulsion::NoOverlap;
    layout.fn_attraction = Attraction::LogNoOverlap;
    assert!(layout.is_well_formed());
    layout.tree.new_root((v2(0.0, 0.0), v2(1.0, 1.0)));
    assert!(!layout.is_well_formed());
    assert!(Layout::<Real, 2>::empty(settings()).is_well_formed());
}

#[test]
fn repulsion_on_one_node_is_the_repulsion_of_the_pass() {
    for po in [None, Some(Real(100.0))] {
        let s = Settings { prevent_overlapping: po, ..settings() };
        let mut layout = chain([1.0, 5.0, 1.0], s);
        let mut alone = layout.nodes[2];
        let mut tree = forceatlas2::trees::Tree::new();
        forceatlas2::forces::repulsion::build_tree(&layout.nodes, &mut tree);
        layout.apply_repulsion();
        alone.push_by(&tree, layout.fn_repulsion, &s);
        assert_eq!(alone, layout.nodes[2]);
        assert!(alone.speed != v2(0.0, 0.0));
    }
}

#[test]
fn coincident_nodes_of_unlike_mass_do_not_push_each_other() {
    for at in [0.1, 1e-170, -3.3, 1e200] {
        let mut layout = Layout::<Real, 2>::from_position_graph(
            vec![],
            vec![
                Node { pos: v2(at, at), mass: Real(1.0), ..Default::default() },
                Node { pos: v2(at, at), mass: Real(4.0), ..Default::default() },
            ],
            Settings::default(),
        );
        layout.apply_repulsion();
        assert_eq!(layout.nodes[0].speed, v2(0.0, 0.0));
        assert_eq!(layout.nodes[1].speed, v2(0.0, 0.0));
    }
}
