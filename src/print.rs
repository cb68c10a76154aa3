//! A textual dump of the quadtree, one node per line.
use vstd::prelude::*;
use crate::arena::{child_of, sums_bounded, Node, Tree, NO_CHILD};
use crate::builder::{is_built, MAX_BODIES};
use crate::region::COORD_LIMIT;
use crate::fixed::{div_toward_zero, div_trunc};

verus! {

pub open spec fn digit_char(d: int) -> char {
    if d == 0 {
        '0'
    } else if d == 1 {
        '1'
    } else if d == 2 {
        '2'
    } else if d == 3 {
        '3'
    } else if d == 4 {
        '4'
    } else if d == 5 {
        '5'
    } else if d == 6 {
        '6'
    } else if d == 7 {
        '7'
    } else if d == 8 {
        '8'
    } else {
        '9'
    }
}

/// Decimal digits of a natural number, most significant first.
pub open spec fn decimal(n: nat) -> Seq<char>
    decreases n,
{
    if n < 10 {
        seq![digit_char(n as int)]
    } else {
        decimal(n / 10).push(digit_char((n % 10) as int))
    }
}

/// Decimal text of an integer, with a leading `-` when negative.
pub open spec fn signed_decimal(n: int) -> Seq<char> {
    if n < 0 {
        seq!['-'] + decimal((-n) as nat)
    } else {
        decimal(n as nat)
    }
}

/// The centre of mass of a node on the lattice, rounded toward zero; 0 when empty.
pub open spec fn centre_x(n: Node) -> int {
    if n.count == 0 { 0 } else { div_trunc(n.sum_x as int, n.count as int) }
}

pub open spec fn centre_y(n: Node) -> int {
    if n.count == 0 { 0 } else { div_trunc(n.sum_y as int, n.count as int) }
}

/// `depth` levels of two-space indentation.
pub open spec fn indent(depth: nat) -> Seq<char>
    decreases depth,
{
    if depth == 0 {
        Seq::empty()
    } else {
        indent((depth - 1) as nat) + seq![' ', ' ']
    }
}

/// The line for node `h`: `Node h: mass m, centre of mass (x, y)`.
pub open spec fn node_line(ns: Seq<Node>, depth: nat, h: int) -> Seq<char> {
    indent(depth) + seq!['N', 'o', 'd', 'e', ' '] + decimal(h as nat) + seq![
        ':',
        ' ',
        'm',
        'a',
        's',
        's',
        ' ',
    ] + decimal(ns[h].count as nat) + seq![
        ',',
        ' ',
        'c',
        'e',
        'n',
        't',
        'r',
        'e',
        ' ',
        'o',
        'f',
        ' ',
        'm',
        'a',
        's',
        's',
        ' ',
        '(',
    ] + signed_decimal(centre_x(ns[h])) + seq![',', ' '] + signed_decimal(centre_y(ns[h]))
        + seq![')', '\n']
}

/// The dump of the subtree at `h`: its line, then its children's dumps one
/// level deeper, in the order top left, top right, bottom left, bottom right.
pub open spec fn tree_text(ns: Seq<Node>, depth: nat, h: int) -> Seq<char>
    decreases ns.len() - h, 5nat,
{
    if h < 0 || h >= ns.len() {
        Seq::empty()
    } else {
        node_line(ns, depth, h) + children_text(ns, depth + 1, h, 0)
    }
}

/// The dumps of the children of `h` in quadrants `q ..`.
pub open spec fn children_text(ns: Seq<Node>, depth: nat, h: int, q: int) -> Seq<char>
    decreases ns.len() - h, 4 - q,
{
    if q < 0 || q >= 4 || h < 0 || h >= ns.len() {
        Seq::empty()
    } else {
        let c = child_of(ns[h], q);
        let rest = children_text(ns, depth, h, q + 1);
        if c != NO_CHILD && h < c < ns.len() {
            tree_text(ns, depth, c as int) + rest
        } else {
            rest
        }
    }
}

fn push_digit(out: &mut String, d: u128)
    requires
        d < 10,
    ensures
        final(out)@ == old(out)@.push(digit_char(d as int)),
{
    let s: &str = if d == 0 {
        proof {
            reveal_strlit("0");
        }
        "0"
    } else if d == 1 {
        proof {
            reveal_strlit("1");
        }
        "1"
    } else if d == 2 {
        proof {
            reveal_strlit("2");
        }
        "2"
    } else if d == 3 {
        proof {
            reveal_strlit("3");
        }
        "3"
    } else if d == 4 {
        proof {
            reveal_strlit("4");
        }
        "4"
    } else if d == 5 {
        proof {
            reveal_strlit("5");
        }
        "5"
    } else if d == 6 {
        proof {
            reveal_strlit("6");
        }
        "6"
    } else if d == 7 {
        proof {
            reveal_strlit("7");
        }
        "7"
    } else if d == 8 {
        proof {
            reveal_strlit("8");
        }
        "8"
    } else {
        proof {
            reveal_strlit("9");
        }
        "9"
    };
    assert(s@ == seq![digit_char(d as int)]);
    out.append(s);
    assert(out@ =~= old(out)@.push(digit_char(d as int)));
}

/// Appends the decimal digits of `n`.
fn push_decimal(out: &mut String, n: u128)
    ensures
        final(out)@ == old(out)@ + decimal(n as nat),
    decreases n,
{
    if n < 10 {
        push_digit(out, n);
        assert(final(out)@ =~= old(out)@ + decimal(n as nat)) by {
            assert(out@ =~= old(out)@ + decimal(n as nat));
        }
    } else {
        push_decimal(out, n / 10);
        push_digit(out, n % 10);
        assert(out@ =~= old(out)@ + decimal(n as nat));
    }
}

/// Appends the decimal text of `n`.
fn push_signed(out: &mut String, n: i128)
    requires
        n > i128::MIN,
    ensures
        final(out)@ == old(out)@ + signed_decimal(n as int),
{
    if n < 0 {
        proof {
            reveal_strlit("-");
        }
        out.append("-");
        push_decimal(out, (-n) as u128);
        assert(out@ =~= old(out)@ + signed_decimal(n as int));
    } else {
        push_decimal(out, n as u128);
    }
}

fn push_str(out: &mut String, s: &str)
    ensures
        final(out)@ == old(out)@ + s@,
{
    out.append(s);
}

impl Tree {
    /// Text of the subtree at `node_index`, indented by `depth` levels; see `tree_text`.
    pub fn print(&self, depth: usize, node_index: usize) -> (r: String)
        requires
            is_built(*self),
            node_index < self.num_nodes,
            depth + (self.num_nodes - node_index) < usize::MAX,
        ensures
            r@ == tree_text(self.live(), depth as nat, node_index as int),
        decreases self.num_nodes - node_index,
    {
        let ghost ns = self.live();
        let mut output = String::new();
        for _k in 0..depth
            invariant
                output@ == indent(_k as nat),
        {
            proof {
                reveal_strlit("  ");
            }
            push_str(&mut output, "  ");
            assert(output@ =~= indent((_k + 1) as nat));
        }
        let node: &Node = &self.nodes[node_index];
        assert(*node == ns[node_index as int]);
        assert(sums_bounded(ns[node_index as int]));
        proof {
            reveal_strlit("Node ");
            reveal_strlit(": mass ");
            reveal_strlit(", centre of mass (");
            reveal_strlit(", ");
            reveal_strlit(")\n");
        }
        push_str(&mut output, "Node ");
        push_decimal(&mut output, node_index as u128);
        push_str(&mut output, ": mass ");
        push_decimal(&mut output, node.count as u128);
        push_str(&mut output, ", centre of mass (");
        let (cx, cy) = centre_of_mass(node);
        push_signed(&mut output, cx);
        push_str(&mut output, ", ");
        push_signed(&mut output, cy);
        push_str(&mut output, ")\n");
        assert(output@ =~= node_line(ns, depth as nat, node_index as int));
        let ghost line = output@;
        let mut q: usize = 4;
        let mut tail = String::new();
        while q > 0
            invariant
                q <= 4,
                ns == self.live(),
                is_built(*self),
                node_index < self.num_nodes,
                depth + (self.num_nodes - node_index) < usize::MAX,
                *node == ns[node_index as int],
                tail@ == children_text(ns, (depth + 1) as nat, node_index as int, q as int),
            decreases q,
        {
            q = q - 1;
            let c = node.child(q);
            if c != NO_CHILD {
                assert(node_index < c < self.num_nodes);
                let sub = self.print(depth + 1, c);
                let mut both = sub;
                push_str(&mut both, tail.as_str());
                tail = both;
            }
            assert(tail@ =~= children_text(ns, (depth + 1) as nat, node_index as int, q as int));
        }
        push_str(&mut output, tail.as_str());
        assert(output@ =~= tree_text(ns, depth as nat, node_index as int));
        output
    }
}

/// The centre of mass of `n` rounded toward zero, `(0, 0)` when it is empty.
pub fn centre_of_mass(n: &Node) -> (r: (i128, i128))
    requires
        sums_bounded(*n),
        n.count <= MAX_BODIES,
    ensures
        r.0 == centre_x(*n),
        r.1 == centre_y(*n),
        r.0 > i128::MIN,
        r.1 > i128::MIN,
{
    if n.count == 0 {
        return (0, 0);
    }
    assert(n.count * COORD_LIMIT <= 0x100_0000 * 0x100_0000_0000) by (nonlinear_arith)
        requires
            n.count <= 0x100_0000,
            COORD_LIMIT == 0x100_0000_0000,
    ;
    (div_toward_zero(n.sum_x, n.count as i128), div_toward_zero(n.sum_y, n.count as i128))
}

} // verus!
