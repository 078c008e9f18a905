use calculator::ui::{CalculatorWindow, MathInput};

struct Fixed(i32);

impl MathInput for Fixed {
    fn calculate(&self, expr: &str) -> i32 {
        self.0 + expr.len() as i32
    }
}

#[test]
fn window_keeps_what_it_was_made_with() {
    let window = CalculatorWindow::new("hello, world!", 1280, 720, Box::new(Fixed(2)));
    assert_eq!(window.title(), "hello, world!");
    assert_eq!(window.width(), 1280);
    assert_eq!(window.height(), 720);
    assert_eq!(window.input().calculate("1 + 2"), 7);
}

#[test]
fn windows_are_independent() {
    let small = CalculatorWindow::new("small", 1, 2, Box::new(Fixed(0)));
    let large = CalculatorWindow::new("large", u32::MAX, u32::MAX - 1, Box::new(Fixed(10)));
    assert_eq!(small.title(), "small");
    assert_eq!(small.width(), 1);
    assert_eq!(small.height(), 2);
    assert_eq!(small.input().calculate(""), 0);
    assert_eq!(large.title(), "large");
    assert_eq!(large.width(), u32::MAX);
    assert_eq!(large.height(), u32::MAX - 1);
    assert_eq!(large.input().calculate(""), 10);
}
