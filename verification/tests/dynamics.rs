use nalgebra as na;
use rkd::link::Link;
use rkd::rkd::{Rkd, TreeError};

/// What a caller keeps per link: physical parameters, joint state and the
/// state that the two passes compute.
#[derive(Debug, Clone, PartialEq)]
struct Body {
    mass: f32,
    com: na::Vector3<f32>,
    inertia_mat: na::Matrix3<f32>,
    q: f32,
    dqdt: f32,
    ddqddt: f32,
    p: na::Vector3<f32>,
    r_quat: na::UnitQuaternion<f32>,
    ddpddt: na::Vector3<f32>,
    ddsddt: na::Vector3<f32>,
    w_vec: na::Vector3<f32>,
    dwdt_vec: na::Vector3<f32>,
    a: na::Unit<na::Vector3<f32>>,
    b: na::Vector3<f32>,
}

impl Body {
    fn new() -> Self {
        Self {
            mass: 0.0,
            com: na::Vector3::zeros(),
            inertia_mat: na::Matrix3::zeros(),
            q: 0.0,
            dqdt: 0.0,
            ddqddt: 0.0,
            p: na::Vector3::zeros(),
            r_quat: na::UnitQuaternion::identity(),
            ddpddt: na::Vector3::zeros(),
            ddsddt: na::Vector3::zeros(),
            w_vec: na::Vector3::zeros(),
            dwdt_vec: na::Vector3::zeros(),
            a: na::Vector3::x_axis(),
            b: na::Vector3::zeros(),
        }
    }
}

#[derive(Debug, Clone, PartialEq)]
struct Wrench {
    f: na::Vector3<f32>,
    n: na::Vector3<f32>,
}

fn ground(root: &Body) -> Body {
    let mut out = root.clone();
    out.r_quat = na::UnitQuaternion::identity();
    out.p = na::Vector3::zeros();
    out.w_vec = na::Vector3::zeros();
    out.dwdt_vec = na::Vector3::zeros();
    out.ddsddt = na::Vector3::zeros();
    out
}

fn joint(parent: &Body, link: &Body) -> Body {
    let mut out = link.clone();
    let axis = link.a.into_inner();
    let pr = na::UnitQuaternion::from_axis_angle(&link.a, link.q);
    out.r_quat = na::UnitQuaternion::new_normalize((parent.r_quat * pr).into_inner());
    out.p = parent.p + parent.r_quat.transform_vector(&link.b);
    out.w_vec = pr.inverse().transform_vector(&parent.w_vec) + axis * link.dqdt;
    out.dwdt_vec = pr.inverse().transform_vector(&parent.dwdt_vec)
        + axis * link.ddqddt
        + pr.transform_vector(&parent.w_vec).cross(&(axis * link.dqdt));
    out.ddpddt = pr.inverse().transform_vector(
        &(parent.ddpddt
            + parent.dwdt_vec.cross(&link.b)
            + parent.w_vec.cross(&parent.w_vec.cross(&link.b))),
    );
    out.ddsddt = out.ddpddt
        + out.dwdt_vec.cross(&link.com)
        + out.w_vec.cross(&out.w_vec.cross(&link.com));
    out
}

fn inertial(link: &Body) -> Wrench {
    let f_hat = link.ddsddt * link.mass;
    let n_hat =
        link.inertia_mat * link.dwdt_vec + link.w_vec.cross(&(link.inertia_mat * link.w_vec));
    Wrench { f: f_hat, n: n_hat + link.com.cross(&f_hat) }
}

fn transmit(mut sum: Wrench, child: &Body, sent: &Wrench) -> Wrench {
    let r = na::UnitQuaternion::from_axis_angle(&child.a, child.q);
    let f_tmp = r.transform_vector(&sent.f);
    sum.f += f_tmp;
    let n_tmp = r.transform_vector(&sent.n) + child.b.cross(&r.transform_vector(&sent.f));
    sum.n += n_tmp;
    sum
}

fn project(link: &Body, net: &Wrench) -> f32 {
    net.n.dot(&link.a)
}

fn close(a: f32, b: f32, eps: f32) -> bool {
    if a == b {
        return true;
    }
    if a.is_infinite() || b.is_infinite() {
        return false;
    }
    let diff = (a - b).abs();
    if diff <= eps {
        return true;
    }
    let largest = if a.abs() > b.abs() { a.abs() } else { b.abs() };
    diff <= largest * f32::EPSILON
}

fn close3(a: na::Vector3<f32>, b: na::Vector3<f32>, eps: f32) -> bool {
    close(a.x, b.x, eps) && close(a.y, b.y, eps) && close(a.z, b.z, eps)
}

/// Builds the arena that goes with `parents`, filling ids and child lists
/// the way a caller does by hand.
fn arena(parents: &[u8]) -> Rkd {
    let mut rkd = Rkd::new();
    for &p in parents {
        let mut l = Link::new();
        l.parent = p;
        rkd.links.push(l).unwrap();
    }
    for i in 0..rkd.links.len() {
        rkd.links[i].id = i as u8;
        let pid = rkd.links[i].parent;
        let id = rkd.links[i].id;
        if pid != id {
            rkd.links[pid as usize].children.push(id).unwrap();
        }
    }
    rkd
}

#[test]
fn rkd_init() {
    let mut rkd = Rkd::new();
    let mut bodies: Vec<Body> = Vec::new();
    let mut l0 = Link::new();
    l0.parent = 0;
    rkd.links.push(l0).unwrap();
    bodies.push(Body::new());
    let mut l1 = Link::new();
    l1.parent = 0;
    let mut b1 = Body::new();
    b1.b = na::Vector3::new(0.0, 0.0, 1.0);
    rkd.links.push(l1).unwrap();
    bodies.push(b1);
    let mut l2 = Link::new();
    l2.parent = 0;
    let mut b2 = Body::new();
    b2.b = na::Vector3::new(0.0, 0.0, 1.0);
    rkd.links.push(l2).unwrap();
    bodies.push(b2);
    let mut l3 = Link::new();
    l3.parent = 1;
    let mut b3 = Body::new();
    b3.b = na::Vector3::new(0.0, 0.0, 1.0);
    rkd.links.push(l3).unwrap();
    bodies.push(b3);
    let mut l4 = Link::new();
    l4.parent = 1;
    let mut b4 = Body::new();
    b4.b = na::Vector3::new(0.0, 0.0, 1.0);
    rkd.links.push(l4).unwrap();
    bodies.push(b4);

    for i in 0..rkd.links.len() {
        rkd.links[i].id = i as u8;
        let pid = rkd.links[i].parent;
        let id = rkd.links[i].id;
        if pid != id {
            rkd.links[pid as usize].children.push(id).unwrap();
        }
    }
    assert_eq!(*rkd.links[0].children, [1, 2]);
    assert_eq!(*rkd.links[1].children, [3, 4]);
    assert_eq!(*rkd.links[2].children, []);
    assert_eq!(*rkd.links[3].children, []);
    assert_eq!(*rkd.links[4].children, []);

    rkd.update_kinematic_relationship(&mut bodies, ground, joint).unwrap();
    assert_eq!(bodies[0].p, na::Vector3::zeros());
    assert_eq!(bodies[1].p, na::Vector3::new(0.0, 0.0, 1.0));
    assert_eq!(bodies[2].p, na::Vector3::new(0.0, 0.0, 1.0));
    assert_eq!(bodies[3].p, na::Vector3::new(0.0, 0.0, 2.0));
    assert_eq!(bodies[4].p, na::Vector3::new(0.0, 0.0, 2.0));

    let t = rkd.update_equation_of_motion(&bodies, inertial, transmit, project).unwrap();
    assert_eq!(t.len(), 5);
}

#[test]
fn lane2d() {
    let l_1 = 2.0;
    let i_1 = 0.3;
    let lg_1 = 3.0;
    let m1 = 22.0;
    let l_2 = 2.0;
    let i_2 = 0.4;
    let lg_2 = 3.0;
    let m2 = 12.0;
    let g = 9.8;
    let mut rkd = Rkd::new();
    let mut bodies: Vec<Body> = Vec::new();
    let mut l0 = Link::new();
    l0.parent = 0;
    let mut b0 = Body::new();
    b0.ddpddt = na::Vector3::new(0.0, g, 0.0);
    rkd.links.push(l0).unwrap();
    bodies.push(b0);
    let mut l1 = Link::new();
    l1.parent = 0;
    let mut b1 = Body::new();
    b1.a = na::Vector3::z_axis();
    b1.b = na::Vector3::new(0.0, 0.0, 0.0);
    b1.inertia_mat[(2, 2)] = i_1;
    b1.com = na::Vector3::new(lg_1, 0.0, 0.0);
    b1.mass = m1;
    rkd.links.push(l1).unwrap();
    bodies.push(b1);
    let mut l2 = Link::new();
    l2.parent = 1;
    let mut b2 = Body::new();
    b2.a = na::Vector3::z_axis();
    b2.b = na::Vector3::new(l_1, 0.0, 0.0);
    b2.inertia_mat[(2, 2)] = i_2;
    b2.com = na::Vector3::new(lg_2, 0.0, 0.0);
    b2.mass = m2;
    rkd.links.push(l2).unwrap();
    bodies.push(b2);
    let mut l3 = Link::new();
    l3.parent = 2;
    let mut b3 = Body::new();
    b3.a = na::Vector3::z_axis();
    b3.b = na::Vector3::new(l_2, 0.0, 0.0);
    rkd.links.push(l3).unwrap();
    bodies.push(b3);

    for i in 0..rkd.links.len() {
        rkd.links[i].id = i as u8;
        let pid = rkd.links[i].parent;
        let id = rkd.links[i].id;
        if pid != id {
            rkd.links[pid as usize].children.push(id).unwrap();
        }
    }
    assert_eq!(*rkd.links[0].children, [1]);
    assert_eq!(*rkd.links[1].children, [2]);
    assert_eq!(*rkd.links[2].children, [3]);

    ////////////////////////////////////////////////////////////////

    let q1 = 0.2;
    let dq1 = 0.02;
    let ddq1 = 0.03;
    bodies[1].q = q1;
    bodies[1].dqdt = dq1;
    bodies[1].ddqddt = ddq1;
    let q2 = 0.3;
    let dq2 = 0.02;
    let ddq2 = 0.03;
    bodies[2].q = q2;
    bodies[2].dqdt = dq2;
    bodies[2].ddqddt = ddq2;

    let sin1 = bodies[1].q.sin();
    let cos1 = bodies[1].q.cos();
    let sin2 = bodies[2].q.sin();
    let cos2 = bodies[2].q.cos();
    let sin12 = (bodies[1].q + bodies[2].q).sin();
    let cos12 = (bodies[1].q + bodies[2].q).cos();

    rkd.update_kinematic_relationship(&mut bodies, ground, joint).unwrap();
    let t = rkd.update_equation_of_motion(&bodies, inertial, transmit, project).unwrap();
    assert_eq!(bodies[0].p, na::Vector3::zeros());
    assert_eq!(bodies[1].p, na::Vector3::new(0.0, 0.0, 0.0));
    assert!(close3(bodies[2].p, na::Vector3::new(l_1 * cos1, l_1 * sin1, 0.0), 1.0e-6));
    assert!(close3(
        bodies[3].p,
        na::Vector3::new(l_1 * cos1 + l_2 * cos12, l_1 * sin1 + l_2 * sin12, 0.0),
        1.0e-6
    ));

    assert_eq!(bodies[1].w_vec, na::Vector3::new(0.0, 0.0, dq1));
    assert_eq!(bodies[2].w_vec, na::Vector3::new(0.0, 0.0, dq1 + dq2));
    assert_eq!(bodies[1].dwdt_vec, na::Vector3::new(0.0, 0.0, ddq1));
    assert!(close3(bodies[2].dwdt_vec, na::Vector3::new(0.0, 0.0, ddq1 + ddq2), 1.0e-6));
    assert!(close3(bodies[1].ddpddt, na::Vector3::new(sin1 * g, cos1 * g, 0.0), 1.0e-6));
    assert!(close3(
        bodies[2].ddpddt,
        na::Vector3::new(
            sin12 * g - l_1 * (cos2 * dq1 * dq1 - sin2 * ddq1),
            cos12 * g + l_1 * (sin2 * dq1 * dq1 + cos2 * ddq1),
            0.0
        ),
        1.0e-6
    ));
    assert!(close3(
        bodies[1].ddsddt,
        na::Vector3::new(sin1 * g - lg_1 * dq1 * dq1, cos1 * g + lg_1 * ddq1, 0.0),
        1.0e-6
    ));
    assert!(close3(
        bodies[2].ddsddt,
        na::Vector3::new(
            sin12 * g
                - l_1 * (cos2 * dq1 * dq1 - sin2 * ddq1)
                - lg_2 * (dq1 + dq2) * (dq1 + dq2),
            cos12 * g + l_1 * (sin2 * dq1 * dq1 + cos2 * ddq1) + lg_2 * (ddq1 + ddq2),
            0.0
        ),
        1.0e-6
    ));
    assert!(close(
        t[1],
        i_2 * (ddq1 + ddq2)
            + m2 * lg_2
                * (cos12 * g + l_1 * (sin2 * dq1 * dq1 + cos2 * ddq1) + lg_2 * (ddq1 + ddq2))
            + i_1 * ddq1
            + m1 * lg_1 * (cos1 * g + lg_1 * ddq1)
            + m2 * (l_2 * l_2 * ddq1 + l_1 * lg_2 * cos2 * (ddq1 + ddq2)
                - l_1 * lg_2 * sin2 * (dq1 + dq2) * (dq1 + dq2)
                + g * l_1 * cos1),
        1.0e-6
    ));
    assert!(close(
        t[2],
        i_2 * (ddq1 + ddq2)
            + m2 * lg_2
                * (cos12 * g + l_1 * (sin2 * dq1 * dq1 + cos2 * ddq1) + lg_2 * (ddq1 + ddq2)),
        1.0e-6
    ));

    ////////////////////////////////////////////////////////////////
    let q1 = 0.0;
    let dq1 = 0.02;
    let ddq1 = 0.03;
    bodies[1].q = q1;
    bodies[1].dqdt = dq1;
    bodies[1].ddqddt = ddq1;
    let q2 = 0.0;
    let dq2 = 0.02;
    let ddq2 = 0.03;
    bodies[2].q = q2;
    bodies[2].dqdt = dq2;
    bodies[2].ddqddt = ddq2;

    let sin1 = bodies[1].q.sin();
    let cos1 = bodies[1].q.cos();
    let sin2 = bodies[2].q.sin();
    let cos2 = bodies[2].q.cos();
    let sin12 = (bodies[1].q + bodies[2].q).sin();
    let cos12 = (bodies[1].q + bodies[2].q).cos();

    rkd.update_kinematic_relationship(&mut bodies, ground, joint).unwrap();
    let t = rkd.update_equation_of_motion(&bodies, inertial, transmit, project).unwrap();
    assert_eq!(bodies[0].p, na::Vector3::zeros());
    assert_eq!(bodies[1].p, na::Vector3::new(0.0, 0.0, 0.0));
    assert_eq!(bodies[2].p, na::Vector3::new(l_1, 0.0, 0.0));
    assert_eq!(bodies[3].p, na::Vector3::new(l_1 + l_2, 0.0, 0.0));

    assert_eq!(bodies[1].w_vec, na::Vector3::new(0.0, 0.0, dq1));
    assert_eq!(bodies[2].w_vec, na::Vector3::new(0.0, 0.0, dq1 + dq2));
    assert_eq!(bodies[1].dwdt_vec, na::Vector3::new(0.0, 0.0, ddq1));
    assert_eq!(bodies[2].dwdt_vec, na::Vector3::new(0.0, 0.0, ddq1 + ddq2));
    assert!(close3(bodies[1].ddpddt, na::Vector3::new(sin1 * g, cos1 * g, 0.0), 1.0e-6));
    assert!(close3(
        bodies[2].ddpddt,
        na::Vector3::new(
            sin12 * g - l_1 * (cos2 * dq1 * dq1 - sin2 * ddq1),
            cos12 * g + l_1 * (sin2 * dq1 * dq1 + cos2 * ddq1),
            0.0
        ),
        1.0e-6
    ));
    assert!(close3(
        bodies[1].ddsddt,
        na::Vector3::new(sin1 * g - lg_1 * dq1 * dq1, cos1 * g + lg_1 * ddq1, 0.0),
        1.0e-6
    ));
    assert!(close3(
        bodies[2].ddsddt,
        na::Vector3::new(
            sin12 * g
                - l_1 * (cos2 * dq1 * dq1 - sin2 * ddq1)
                - lg_2 * (dq1 + dq2) * (dq1 + dq2),
            cos12 * g + l_1 * (sin2 * dq1 * dq1 + cos2 * ddq1) + lg_2 * (ddq1 + ddq2),
            0.0
        ),
        1.0e-6
    ));
    assert!(close(
        t[1],
        i_2 * (ddq1 + ddq2)
            + m2 * lg_2
                * (cos12 * g + l_1 * (sin2 * dq1 * dq1 + cos2 * ddq1) + lg_2 * (ddq1 + ddq2))
            + i_1 * ddq1
            + m1 * lg_1 * (cos1 * g + lg_1 * ddq1)
            + m2 * (l_2 * l_2 * ddq1 + l_1 * lg_2 * cos2 * (ddq1 + ddq2)
                - l_1 * lg_2 * sin2 * (dq1 + dq2) * (dq1 + dq2)
                + g * l_1 * cos1),
        1.0e-6
    ));
    assert!(close(
        t[2],
        i_2 * (ddq1 + ddq2)
            + m2 * lg_2
                * (cos12 * g + l_1 * (sin2 * dq1 * dq1 + cos2 * ddq1) + lg_2 * (ddq1 + ddq2)),
        1.0e-6
    ));
}

#[test]
fn the_root_is_reset_whatever_it_held() {
    let rkd = arena(&[0, 0, 1]);
    let mut bodies = vec![Body::new(), Body::new(), Body::new()];
    bodies[0].p = na::Vector3::new(4.0, 5.0, 6.0);
    bodies[0].r_quat = na::UnitQuaternion::from_axis_angle(&na::Vector3::y_axis(), 1.0);
    bodies[0].w_vec = na::Vector3::new(1.0, 2.0, 3.0);
    bodies[0].dwdt_vec = na::Vector3::new(1.0, 2.0, 3.0);
    bodies[0].ddpddt = na::Vector3::new(0.0, 9.8, 0.0);
    bodies[1].q = 0.7;
    bodies[2].q = -0.4;
    rkd.update_kinematic_relationship(&mut bodies, ground, joint).unwrap();
    assert_eq!(bodies[0].r_quat, na::UnitQuaternion::identity());
    assert_eq!(bodies[0].p, na::Vector3::zeros());
    assert_eq!(bodies[0].w_vec, na::Vector3::zeros());
    assert_eq!(bodies[0].dwdt_vec, na::Vector3::zeros());
    // The acceleration of the base is the caller's to seed.
    assert_eq!(bodies[0].ddpddt, na::Vector3::new(0.0, 9.8, 0.0));
}

#[test]
fn orientation_stays_of_unit_norm() {
    let rkd = arena(&[0, 0, 1, 2, 3]);
    let mut bodies = vec![Body::new(); 5];
    for i in 1..5 {
        bodies[i].a = if i % 2 == 0 { na::Vector3::y_axis() } else { na::Vector3::z_axis() };
        bodies[i].q = 0.37 * i as f32;
        bodies[i].b = na::Vector3::new(0.3, 0.1, 0.2);
    }
    rkd.update_kinematic_relationship(&mut bodies, ground, joint).unwrap();
    for i in 0..5 {
        assert!(close(bodies[i].r_quat.into_inner().norm(), 1.0, 1.0e-6));
    }
}

fn branching_bodies() -> Vec<Body> {
    let mut bodies = vec![Body::new(); 6];
    bodies[0].ddpddt = na::Vector3::new(0.0, 9.8, 0.0);
    for i in 1..6 {
        let f = i as f32;
        bodies[i].a = if i % 2 == 0 { na::Vector3::y_axis() } else { na::Vector3::z_axis() };
        bodies[i].b = na::Vector3::new(0.5 * f, 0.25, -0.125 * f);
        bodies[i].com = na::Vector3::new(0.25, 0.0, 0.125 * f);
        bodies[i].mass = 1.5 * f;
        bodies[i].inertia_mat[(0, 0)] = 0.1 * f;
        bodies[i].inertia_mat[(1, 1)] = 0.2 * f;
        bodies[i].inertia_mat[(2, 2)] = 0.3 * f;
        bodies[i].q = 0.1 * f;
        bodies[i].dqdt = 0.02 * f;
        bodies[i].ddqddt = -0.03 * f;
    }
    bodies
}

#[test]
fn sibling_order_does_not_change_the_result() {
    let parents: [u8; 6] = [0, 0, 0, 1, 1, 1];
    let first = arena(&parents);
    assert_eq!(*first.links[0].children, [1, 2]);
    assert_eq!(*first.links[1].children, [3, 4, 5]);
    let mut second = arena(&parents);
    second.links[0].children.clear();
    second.links[0].children.push(2).unwrap();
    second.links[0].children.push(1).unwrap();
    second.links[1].children.clear();
    second.links[1].children.push(5).unwrap();
    second.links[1].children.push(3).unwrap();
    second.links[1].children.push(4).unwrap();
    assert!(first.forward_order().unwrap() != second.forward_order().unwrap());

    let mut a = branching_bodies();
    let mut b = branching_bodies();
    first.update_kinematic_relationship(&mut a, ground, joint).unwrap();
    second.update_kinematic_relationship(&mut b, ground, joint).unwrap();
    assert_eq!(a, b);

    let ta = first.update_equation_of_motion(&a, inertial, transmit, project).unwrap();
    let tb = second.update_equation_of_motion(&b, inertial, transmit, project).unwrap();
    assert_eq!(ta.len(), 6);
    assert_eq!(tb.len(), 6);
    for i in 0..6 {
        assert!(close(ta[i], tb[i], 1.0e-3), "torque {}: {} and {}", i, ta[i], tb[i]);
    }
}

#[test]
fn at_rest_the_offsets_add_up() {
    let rkd = arena(&[0, 0, 1, 1, 3]);
    let mut bodies = vec![Body::new(); 5];
    bodies[1].b = na::Vector3::new(1.0, 0.0, 0.0);
    bodies[2].b = na::Vector3::new(0.0, 2.0, 0.0);
    bodies[3].b = na::Vector3::new(0.0, 0.0, 3.0);
    bodies[4].b = na::Vector3::new(0.5, 0.5, 0.5);
    for i in 1..5 {
        bodies[i].a = na::Vector3::z_axis();
        bodies[i].mass = 1.0;
        bodies[i].com = na::Vector3::new(0.1, 0.2, 0.3);
    }
    rkd.update_kinematic_relationship(&mut bodies, ground, joint).unwrap();
    assert_eq!(bodies[1].p, na::Vector3::new(1.0, 0.0, 0.0));
    assert_eq!(bodies[2].p, na::Vector3::new(1.0, 2.0, 0.0));
    assert_eq!(bodies[3].p, na::Vector3::new(1.0, 0.0, 3.0));
    assert_eq!(bodies[4].p, na::Vector3::new(1.5, 0.5, 3.5));
    for i in 0..5 {
        assert_eq!(bodies[i].w_vec, na::Vector3::zeros());
        assert_eq!(bodies[i].dwdt_vec, na::Vector3::zeros());
        assert_eq!(bodies[i].r_quat, na::UnitQuaternion::identity());
    }
}

#[test]
fn a_single_link_swings_like_a_pendulum() {
    let l = 1.5;
    let lg = 0.75;
    let inertia = 0.2;
    let m = 3.0;
    let g = 9.8;
    let rkd = arena(&[0, 0]);
    let mut bodies = vec![Body::new(), Body::new()];
    bodies[1].a = na::Vector3::z_axis();
    bodies[1].b = na::Vector3::new(l, 0.0, 0.0);
    bodies[1].com = na::Vector3::new(lg, 0.0, 0.0);
    bodies[1].inertia_mat[(2, 2)] = inertia;
    bodies[1].mass = m;

    rkd.update_kinematic_relationship(&mut bodies, ground, joint).unwrap();
    assert_eq!(bodies[1].p, na::Vector3::new(l, 0.0, 0.0));

    let w = 0.4;
    for &q in &[0.0f32, 0.6] {
        bodies[0].ddpddt = na::Vector3::new(0.0, g, 0.0);
        bodies[1].q = q;
        bodies[1].dqdt = w;
        bodies[1].ddqddt = 0.0;
        rkd.update_kinematic_relationship(&mut bodies, ground, joint).unwrap();
        assert!(close3(
            bodies[1].ddsddt,
            na::Vector3::new(q.sin() * g - lg * w * w, q.cos() * g, 0.0),
            1.0e-5
        ));
        let t = rkd.update_equation_of_motion(&bodies, inertial, transmit, project).unwrap();
        assert_eq!(t.len(), 2);
        assert!(close(t[1], m * lg * (q.cos() * g), 1.0e-5));
    }

    let ddq = 0.3;
    bodies[1].q = 0.0;
    bodies[1].dqdt = 0.0;
    bodies[1].ddqddt = ddq;
    rkd.update_kinematic_relationship(&mut bodies, ground, joint).unwrap();
    let t = rkd.update_equation_of_motion(&bodies, inertial, transmit, project).unwrap();
    assert!(close(t[1], inertia * ddq + m * lg * (g + lg * ddq), 1.0e-5));
}

#[test]
fn a_massless_link_only_passes_on() {
    let g = 9.8;
    // root <- 1 <- 2 (massless) <- 3
    let long = arena(&[0, 0, 1, 2]);
    let mut with = vec![Body::new(); 4];
    // root <- 1 <- 2, the offsets of the massless link and of its child added
    let short = arena(&[0, 0, 1]);
    let mut without = vec![Body::new(); 3];

    with[0].ddpddt = na::Vector3::new(0.0, g, 0.0);
    without[0].ddpddt = na::Vector3::new(0.0, g, 0.0);
    for bodies in [&mut with, &mut without] {
        bodies[1].a = na::Vector3::z_axis();
        bodies[1].b = na::Vector3::new(0.0, 0.0, 0.0);
        bodies[1].com = na::Vector3::new(0.5, 0.0, 0.0);
        bodies[1].mass = 4.0;
        bodies[1].inertia_mat[(2, 2)] = 0.3;
        bodies[1].q = 0.3;
        bodies[1].dqdt = 0.2;
        bodies[1].ddqddt = 0.1;
    }
    with[2].a = na::Vector3::z_axis();
    with[2].b = na::Vector3::new(1.0, 0.0, 0.0);
    let end = |b: &mut Body, offset: na::Vector3<f32>| {
        b.a = na::Vector3::z_axis();
        b.b = offset;
        b.com = na::Vector3::new(0.25, 0.0, 0.0);
        b.mass = 2.0;
        b.inertia_mat[(2, 2)] = 0.2;
        b.q = -0.5;
        b.dqdt = 0.3;
        b.ddqddt = -0.2;
    };
    end(&mut with[3], na::Vector3::new(0.5, 0.25, 0.0));
    end(&mut without[2], na::Vector3::new(1.5, 0.25, 0.0));

    long.update_kinematic_relationship(&mut with, ground, joint).unwrap();
    short.update_kinematic_relationship(&mut without, ground, joint).unwrap();
    assert!(close3(with[3].p, without[2].p, 1.0e-5));
    assert!(close3(with[3].ddsddt, without[2].ddsddt, 1.0e-4));

    let t_with = long.update_equation_of_motion(&with, inertial, transmit, project).unwrap();
    let t_without =
        short.update_equation_of_motion(&without, inertial, transmit, project).unwrap();
    assert!(close(t_with[3], t_without[2], 1.0e-4));
    assert!(close(t_with[1], t_without[1], 1.0e-4));
    assert!(close(t_with[0], t_without[0], 1.0e-4));
}

#[test]
fn a_root_alone_has_no_torque() {
    let rkd = arena(&[0]);
    let mut bodies = vec![Body::new()];
    bodies[0].mass = 2.0;
    rkd.update_kinematic_relationship(&mut bodies, ground, joint).unwrap();
    let t = rkd.update_equation_of_motion(&bodies, inertial, transmit, project).unwrap();
    assert!(t.is_empty());
}

#[test]
fn one_body_per_link_is_asked_for() {
    let rkd = arena(&[0, 0, 1]);
    let mut bodies = vec![Body::new(), Body::new()];
    bodies[1].q = 0.5;
    let before = bodies.clone();
    assert_eq!(
        rkd.update_kinematic_relationship(&mut bodies, ground, joint),
        Err(TreeError::BodyCount)
    );
    assert_eq!(bodies, before);
    assert_eq!(
        rkd.update_equation_of_motion(&bodies, inertial, transmit, project),
        Err(TreeError::BodyCount)
    );
}

#[test]
fn a_malformed_arena_changes_nothing() {
    let rkd = arena(&[0, 2, 1]);
    let mut bodies = vec![Body::new(); 3];
    bodies[0].p = na::Vector3::new(1.0, 1.0, 1.0);
    bodies[1].q = 0.5;
    let before = bodies.clone();
    assert_eq!(
        rkd.update_kinematic_relationship(&mut bodies, ground, joint),
        Err(TreeError::Malformed)
    );
    assert_eq!(bodies, before);
    assert_eq!(
        rkd.update_equation_of_motion(&bodies, inertial, transmit, project),
        Err(TreeError::Malformed)
    );
    // A malformed arena is named before a wrong number of bodies is.
    let mut few = vec![Body::new()];
    assert_eq!(
        rkd.update_kinematic_relationship(&mut few, ground, joint),
        Err(TreeError::Malformed)
    );
}

#[test]
fn children_hand_up_in_the_order_of_attachment() {
    // Bodies are labels; the passes record who was combined with whom.
    let rkd = arena(&[0, 0, 0, 1, 1, 0]);
    let mut names: Vec<String> =
        vec!["r".into(), "a".into(), "b".into(), "c".into(), "d".into(), "e".into()];
    rkd.update_kinematic_relationship(
        &mut names,
        |root: &String| format!("{}!", root),
        |parent: &String, link: &String| format!("{}/{}", parent, link),
    )
    .unwrap();
    assert_eq!(names, ["r!", "r!/a", "r!/b", "r!/a/c", "r!/a/d", "r!/e"]);

    let labels: Vec<String> =
        vec!["r".into(), "a".into(), "b".into(), "c".into(), "d".into(), "e".into()];
    let t = rkd
        .update_equation_of_motion(
            &labels,
            |link: &String| link.clone(),
            |sum: String, child: &String, sent: &String| format!("{}+{}({})", sum, child, sent),
            |link: &String, net: &String| format!("{}={}", link, net),
        )
        .unwrap();
    assert_eq!(
        t,
        ["r=r+a(a+c(c)+d(d))+b(b)+e(e)", "a=a+c(c)+d(d)", "b=b", "c=c", "d=d", "e=e"]
    );
}

#[test]
fn a_level_link_at_rest_holds_its_weight() {
    let lg: f32 = 0.75;
    let m: f32 = 3.0;
    let g: f32 = 9.8;
    let rkd = arena(&[0, 0]);
    let mut bodies = vec![Body::new(), Body::new()];
    bodies[0].ddpddt = na::Vector3::new(0.0, g, 0.0);
    bodies[1].a = na::Vector3::z_axis();
    bodies[1].b = na::Vector3::new(1.5, 0.0, 0.0);
    bodies[1].com = na::Vector3::new(lg, 0.0, 0.0);
    bodies[1].inertia_mat[(2, 2)] = 0.2;
    bodies[1].mass = m;
    rkd.update_kinematic_relationship(&mut bodies, ground, joint).unwrap();
    assert_eq!(bodies[1].r_quat, na::UnitQuaternion::identity());
    assert_eq!(bodies[1].p, na::Vector3::new(1.5, 0.0, 0.0));
    assert_eq!(bodies[1].w_vec, na::Vector3::zeros());
    assert_eq!(bodies[1].dwdt_vec, na::Vector3::zeros());
    assert_eq!(bodies[1].ddpddt, na::Vector3::new(0.0, g, 0.0));
    assert_eq!(bodies[1].ddsddt, na::Vector3::new(0.0, g, 0.0));
    let t = rkd.update_equation_of_motion(&bodies, inertial, transmit, project).unwrap();
    assert_eq!(t[1], lg * (g * m));
    // About the root's own axis, x, the weight has no moment.
    assert_eq!(t[0], 0.0);
}
