use vstd::prelude::*;

verus! {

/// The keys the window reacts to.
#[derive(Clone, Copy, Debug, PartialEq, Eq, Structural)]
pub enum Key {
    Escape,
    Other,
}

/// What happened to the window.
#[derive(Clone, Copy, Debug, PartialEq, Eq, Structural)]
pub enum WindowEvent {
    CloseRequested,
    /// A key went down; `None` when it has no known key code.
    KeyboardInput(Option<Key>),
    Other,
}

/// An event of the window's event loop.
#[derive(Clone, Copy, Debug, PartialEq, Eq, Structural)]
pub enum Event {
    WindowEvent(WindowEvent),
    Other,
}

/// Whether the event loop goes on or ends.
#[derive(Clone, Copy, Debug, PartialEq, Eq, Structural)]
pub enum ControlFlow {
    Poll,
    Exit,
}

/// The window is asked to close: by its close button or by the Escape key.
pub open spec fn requests_exit(event: Event) -> bool {
    match event {
        Event::WindowEvent(WindowEvent::CloseRequested) => true,
        Event::WindowEvent(WindowEvent::KeyboardInput(Some(Key::Escape))) => true,
        _ => false,
    }
}

/// Turns window events into the event loop's control flow.
pub struct EventUtil;

impl EventUtil {
    /// Ends the event loop when the window is asked to close; any other
    /// event leaves the control flow as it was.
    pub fn handle_event(event: Event, control_flow: &mut ControlFlow)
        ensures
            *final(control_flow) == if requests_exit(event) {
                ControlFlow::Exit
            } else {
                *old(control_flow)
            },
    {
        match event {
            Event::WindowEvent(event) => EventUtil::handle_window_event(event, control_flow),
            Event::Other => {},
        }
    }

    fn handle_window_event(event: WindowEvent, control_flow: &mut ControlFlow)
        ensures
            *final(control_flow) == if requests_exit(Event::WindowEvent(event)) {
                ControlFlow::Exit
            } else {
                *old(control_flow)
            },
    {
        match event {
            WindowEvent::CloseRequested => *control_flow = ControlFlow::Exit,
            WindowEvent::KeyboardInput(input) => EventUtil::handle_keyboard_input(input, control_flow),
            WindowEvent::Other => {},
        }
    }

    fn handle_keyboard_input(input: Option<Key>, control_flow: &mut ControlFlow)
        ensures
            *final(control_flow) == if input == Some(Key::Escape) {
                ControlFlow::Exit
            } else {
                *old(control_flow)
            },
    {
        if let Some(key) = input {
            match key {
                Key::Escape => *control_flow = ControlFlow::Exit,
                Key::Other => {},
            }
        }
    }
}

} // verus!
